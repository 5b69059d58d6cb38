//! The regular expressions that field paths and field names are held against.
use crate::number::{all_ascii_digits, is_ascii_digit, order_digits, ordered_digits, without_zeros};
use crate::text::{chars_of, view_opt};
use regex::{Captures, Regex};
use vstd::prelude::*;

verus! {

/// `regex::Regex`, a compiled regular expression.
#[verifier::external_type_specification]
#[verifier::external_body]
pub struct ExRegex(regex::Regex);

/// The text that a regular expression was compiled from (`Regex::as_str`).
pub uninterp spec fn pattern_of(re: Regex) -> Seq<char>;

/// Whether `regex` takes a character outside ASCII for a decimal digit (`\d`, the
/// Unicode category Nd).
pub uninterp spec fn is_wide_digit(c: char) -> bool;

/// An array index in a path.
pub const INDEX: &'static str = "\\[[0-9]+\\]";

/// An array index in a path, the digits as a group.
pub const INDEX_DIGITS: &'static str = "\\[(\\d+)\\]";

/// A generated column name.
pub const PLACEHOLDER_NAME: &'static str = "(?i)^column_\\d+$";

/// The identifier of a distribution.
pub const DISTRIBUTION_ID: &'static str = "^(distribution\\[\\d+\\])\\.@id$";

/// The address of a distribution.
pub const DISTRIBUTION_URL: &'static str = "^(distribution\\[\\d+\\])\\.contentUrl$";

/// The source file of a field.
pub const FIELD_SOURCE: &'static str = "^(recordSet\\[\\d+\\]\\.field\\[\\d+\\])\\.source\\.file(?:Object|Set)\\.@id$";

/// Whether `p` is one of the patterns above.
pub open spec fn is_known_pattern(p: Seq<char>) -> bool {
    ||| p == INDEX@
    ||| p == INDEX_DIGITS@
    ||| p == PLACEHOLDER_NAME@
    ||| p == DISTRIBUTION_ID@
    ||| p == DISTRIBUTION_URL@
    ||| p == FIELD_SOURCE@
}

/// Whether `c` is a decimal digit of any script.
pub open spec fn is_digit(c: char) -> bool {
    if (c as int) < 128 {
        is_ascii_digit(c)
    } else {
        is_wide_digit(c)
    }
}

/// Whether `s` is not empty and made of decimal digits of any script.
pub open spec fn all_digits(s: Seq<char>) -> bool {
    s.len() > 0 && forall|i: int| 0 <= i < s.len() ==> is_digit(#[trigger] s[i])
}

/// Whether `s` holds an index in brackets at positions `i` to `j`.
pub open spec fn index_at(s: Seq<char>, i: int, j: int) -> bool {
    0 <= i < j < s.len() && s[i] == '[' && s[j] == ']' && all_ascii_digits(s.subrange(i + 1, j))
}

/// Whether `s` holds an index in brackets somewhere.
pub open spec fn has_index(s: Seq<char>) -> bool {
    exists|i: int, j: int| index_at(s, i, j)
}

/// Whether `c` is the lower case letter `l` or its capital.
pub open spec fn is_letter(c: char, l: char) -> bool {
    c == l || c as int == l as int - 32
}

/// Whether `s` is a generated column name: `column_` in any case, then digits.
pub open spec fn is_placeholder_name(s: Seq<char>) -> bool {
    &&& s.len() > 7
    &&& is_letter(s[0], 'c')
    &&& is_letter(s[1], 'o')
    &&& is_letter(s[2], 'l')
    &&& is_letter(s[3], 'u')
    &&& is_letter(s[4], 'm')
    &&& is_letter(s[5], 'n')
    &&& s[6] == '_'
    &&& all_digits(s.skip(7))
}

/// Whether `s` is `name` followed by an index in brackets.
pub open spec fn is_indexed(s: Seq<char>, name: Seq<char>) -> bool {
    &&& s.len() > name.len() + 2
    &&& name.is_prefix_of(s)
    &&& s[name.len() as int] == '['
    &&& s.last() == ']'
    &&& all_digits(s.subrange(name.len() as int + 1, s.len() - 1))
}

/// Whether `s` is the path of a distribution, such as `distribution[0]`.
pub open spec fn is_distribution(s: Seq<char>) -> bool {
    is_indexed(s, "distribution"@)
}

/// Whether `s` is the path of a field, such as `recordSet[0].field[1]`.
pub open spec fn is_field(s: Seq<char>) -> bool {
    exists|k: int|
        0 <= k <= s.len() && is_indexed(#[trigger] s.take(k), "recordSet"@) && is_indexed(
            s.skip(k),
            ".field"@,
        )
}

/// `s` without `leaf` at its end.
pub open spec fn stem(s: Seq<char>, leaf: Seq<char>) -> Seq<char> {
    s.take(s.len() - leaf.len())
}

/// The distribution whose property `leaf` has the path `s`.
pub open spec fn distribution_of(s: Seq<char>, leaf: Seq<char>) -> Option<Seq<char>> {
    if leaf.is_suffix_of(s) && is_distribution(stem(s, leaf)) {
        Some(stem(s, leaf))
    } else {
        None
    }
}

/// The field whose property `leaf` has the path `s`.
pub open spec fn field_of(s: Seq<char>, leaf: Seq<char>) -> Option<Seq<char>> {
    if leaf.is_suffix_of(s) && is_field(stem(s, leaf)) {
        Some(stem(s, leaf))
    } else {
        None
    }
}

/// The field whose source file has the path `s`.
pub open spec fn source_field_of(s: Seq<char>) -> Option<Seq<char>> {
    match field_of(s, ".source.fileObject.@id"@) {
        Some(f) => Some(f),
        None => field_of(s, ".source.fileSet.@id"@),
    }
}

/// How many decimal digits `s` begins with.
pub open spec fn digit_run(s: Seq<char>) -> nat
    decreases s.len(),
{
    if s.len() > 0 && is_digit(s[0]) {
        1 + digit_run(s.drop_first())
    } else {
        0
    }
}

/// The length of the index in brackets that `s` begins with, or zero.
pub open spec fn index_len(s: Seq<char>) -> nat {
    let d = digit_run(s.drop_first());
    if s.len() > 0 && s[0] == '[' && d > 0 && d + 1 < s.len() && s[d as int + 1] == ']' {
        d + 2
    } else {
        0
    }
}

/// The digits of the number that an index denotes, without leading zeros; none for zero,
/// and for digits of another script.
pub open spec fn significant_digits(digits: Seq<char>) -> Seq<char> {
    if all_ascii_digits(digits) {
        without_zeros(digits)
    } else {
        Seq::empty()
    }
}

/// An index in brackets, its digits in a form whose order as text is that of the numbers.
pub open spec fn padded_index(digits: Seq<char>) -> Seq<char> {
    seq!['['] + ordered_digits(significant_digits(digits)) + seq![']']
}

/// `s` with each index in brackets in its ordered form.
pub open spec fn natural_key(s: Seq<char>) -> Seq<char>
    decreases s.len(),
{
    let n = index_len(s);
    if s.len() == 0 {
        s
    } else if 0 < n <= s.len() {
        padded_index(s.subrange(1, n - 1)) + natural_key(s.skip(n as int))
    } else {
        seq![s[0]] + natural_key(s.drop_first())
    }
}

/// `Regex::new` on one of the patterns above, all of which are well formed.
#[verifier::external_body]
pub(crate) fn compile(pattern: &str) -> (re: Regex)
    requires
        is_known_pattern(pattern@),
    ensures
        pattern_of(re) == pattern@,
{
    Regex::new(pattern).unwrap()
}

/// `Regex::is_match`: whether the pattern occurs in the text; `^` and `$` stand for
/// the two ends of the text.
#[verifier::external_body]
pub(crate) fn is_match(re: &Regex, text: &str) -> (r: bool)
    ensures
        pattern_of(*re) == INDEX@ ==> r == has_index(text@),
        pattern_of(*re) == PLACEHOLDER_NAME@ ==> r == is_placeholder_name(text@),
        pattern_of(*re) == PLACEHOLDER_NAME@ && r && text@.last() as int >= 128 ==> is_wide_digit(
            text@.last(),
        ),
{
    re.is_match(text)
}

/// `Regex::captures`: what the first group of the pattern matched.
#[verifier::external_body]
pub(crate) fn first_group(re: &Regex, text: &str) -> (r: Option<String>)
    ensures
        pattern_of(*re) == DISTRIBUTION_ID@ ==> view_opt(r) == distribution_of(text@, ".@id"@),
        pattern_of(*re) == DISTRIBUTION_URL@ ==> view_opt(r) == distribution_of(
            text@,
            ".contentUrl"@,
        ),
        pattern_of(*re) == FIELD_SOURCE@ ==> view_opt(r) == source_field_of(text@),
{
    re.captures(text).and_then(|c| c.get(1)).map(|m| m.as_str().to_string())
}

/// `Regex::replace_all`: every index in the text, from left to right, is replaced by
/// what `pad_index` makes of its digits, and the rest is kept.
#[verifier::external_body]
pub(crate) fn replace_indices(re: &Regex, text: &str) -> (r: String)
    requires
        pattern_of(*re) == INDEX_DIGITS@,
    ensures
        r@ == natural_key(text@),
{
    re.replace_all(text, |c: &Captures| pad_index(&c[1])).to_string()
}

/// An index in brackets, its digits in a form whose order as text is that of the numbers.
pub fn pad_index(digits: &str) -> (r: String)
    ensures
        r@ == padded_index(digits@),
{
    let cs = chars_of(digits);
    let mut ascii = cs.len() > 0;
    for i in 0..cs.len()
        invariant
            ascii == (cs@.len() > 0 && forall|k: int| 0 <= k < i ==> is_ascii_digit(#[trigger] cs@[k])),
    {
        if !('0' <= cs[i] && cs[i] <= '9') {
            ascii = false;
        }
    }
    let mut from: usize = cs.len();
    if ascii {
        from = 0;
        assert(cs@.skip(0) =~= cs@);
        while from < cs.len() && cs[from] == '0'
            invariant
                from <= cs@.len(),
                without_zeros(cs@.skip(from as int)) == without_zeros(cs@),
            decreases cs@.len() - from,
        {
            assert(cs@.skip(from as int).drop_first() =~= cs@.skip(from + 1));
            from = from + 1;
        }
    }
    assert(cs@.skip(from as int) =~= significant_digits(digits@));
    let mut r = String::new();
    r.push('[');
    r.append(order_digits(cs.as_slice(), from).as_str());
    r.push(']');
    assert(r@ =~= padded_index(digits@));
    r
}

proof fn lemma_indexed(name: Seq<char>, digits: Seq<char>)
    requires
        all_digits(digits),
    ensures
        is_indexed(name + seq!['['] + digits + seq![']'], name),
{
    let s = name + seq!['['] + digits + seq![']'];
    assert(s.subrange(name.len() as int + 1, s.len() - 1) =~= digits);
    assert(s.take(name.len() as int) =~= name);
}

proof fn lemma_stem(s: Seq<char>, leaf: Seq<char>)
    ensures
        leaf.is_suffix_of(s + leaf),
        stem(s + leaf, leaf) == s,
{
    assert((s + leaf).subrange(s.len() as int, (s + leaf).len() as int) =~= leaf);
    assert(stem(s + leaf, leaf) =~= s);
}

/// A property of `distribution[n]` belongs to that distribution, and only paths of this
/// form belong to one.
pub proof fn law_distribution_path(digits: Seq<char>, leaf: Seq<char>, path: Seq<char>)
    ensures
        all_digits(digits) ==> distribution_of("distribution"@ + seq!['['] + digits + seq![']'] + leaf, leaf) == Some(
            "distribution"@ + seq!['['] + digits + seq![']'],
        ),
        !all_digits(digits) ==> distribution_of("distribution"@ + seq!['['] + digits + seq![']'] + leaf, leaf) is None,
        distribution_of(path, leaf) matches Some(d) ==> path == d + leaf && "distribution"@.is_prefix_of(d) && d.last()
            == ']',
{
    let d = "distribution"@ + seq!['['] + digits + seq![']'];
    if all_digits(digits) {
        lemma_indexed("distribution"@, digits);
    } else {
        let n = "distribution"@.len() as int;
        assert(d.subrange(n + 1, d.len() - 1) =~= digits);
    }
    lemma_stem(d, leaf);
    if distribution_of(path, leaf) is Some {
        assert(path =~= stem(path, leaf) + leaf);
    }
}

/// The source file of `recordSet[m].field[n]` is that of this field, whether it is a file
/// or a set of files.
pub proof fn law_source_path(m: Seq<char>, n: Seq<char>)
    requires
        all_digits(m),
        all_digits(n),
    ensures
        ({
            let f = "recordSet"@ + seq!['['] + m + seq![']'] + (".field"@ + seq!['['] + n + seq![']']);
            &&& source_field_of(f + ".source.fileObject.@id"@) == Some(f)
            &&& source_field_of(f + ".source.fileSet.@id"@) == Some(f)
        }),
{
    let a = "recordSet"@ + seq!['['] + m + seq![']'];
    let b = ".field"@ + seq!['['] + n + seq![']'];
    let f = a + b;
    lemma_indexed("recordSet"@, m);
    lemma_indexed(".field"@, n);
    assert(f.take(a.len() as int) =~= a);
    assert(f.skip(a.len() as int) =~= b);
    assert(is_field(f));
    lemma_stem(f, ".source.fileObject.@id"@);
    lemma_stem(f, ".source.fileSet.@id"@);
    reveal_strlit(".source.fileObject.@id");
    reveal_strlit(".source.fileSet.@id");
    let s = f + ".source.fileSet.@id"@;
    let o = ".source.fileObject.@id"@;
    if o.is_suffix_of(s) {
        let x = s.subrange(s.len() - o.len(), s.len() as int);
        assert(x[15] == s[s.len() - 7]);
        assert(s[s.len() - 7] == ".source.fileSet.@id"@[12]);
        assert(o[15] == 'c');
        assert(".source.fileSet.@id"@[12] == 'e');
    }
}

/// A generated column name is recognised in any case; a name with anything after the
/// digits is none.
pub proof fn law_placeholder_name(s: Seq<char>, digits: Seq<char>)
    requires
        s.len() == 7,
    ensures
        is_placeholder_name(s + digits) == (all_digits(digits) && (s[0] == 'c' || s[0] == 'C') && (s[1] == 'o' || s[1]
            == 'O') && (s[2] == 'l' || s[2] == 'L') && (s[3] == 'u' || s[3] == 'U') && (s[4] == 'm' || s[4] == 'M') && (
        s[5] == 'n' || s[5] == 'N') && s[6] == '_'),
        !is_placeholder_name(s),
{
    assert((s + digits).skip(7) =~= digits);
}

} // verus!
