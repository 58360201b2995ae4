//! What the interpreter takes from the string functions of the standard library.

use vstd::prelude::*;
use crate::ir::Name;
use super::value::{vals, Val, Value};

verus! {

/// Whether a character has the Unicode property `White_Space`.
pub uninterp spec fn white_space(c: char) -> bool;

/// `char::is_whitespace`: whether the character has the property `White_Space`. The
/// property itself is left to the Unicode tables.
#[verifier::external_body]
fn is_white_space(c: char) -> (r: bool)
    ensures
        r == white_space(c),
{
    c.is_whitespace()
}

/// The upper-case equivalent of a string.
pub uninterp spec fn upper(s: Seq<char>) -> Seq<char>;

/// `str::to_uppercase`: the result depends on the string alone. The case mapping itself is
/// left to the Unicode tables.
#[verifier::external_body]
pub(crate) fn to_upper(s: &str) -> (r: String)
    ensures
        r@ == upper(s@),
{
    s.to_uppercase()
}

/// The lower-case equivalent of a string.
pub uninterp spec fn lower(s: Seq<char>) -> Seq<char>;

/// `str::to_lowercase`: the result depends on the string alone. The case mapping itself is
/// left to the Unicode tables.
#[verifier::external_body]
pub(crate) fn to_lower(s: &str) -> (r: String)
    ensures
        r@ == lower(s@),
{
    s.to_lowercase()
}

/// A string in double quotes, with what cannot stand there as it is written as an escape.
pub uninterp spec fn quoted(s: Seq<char>) -> Seq<char>;

/// Whether a character stands for itself between double quotes: an ASCII letter or digit, an
/// underscore or a dollar sign.
pub open spec fn stands_for_itself(c: char) -> bool {
    'a' <= c <= 'z' || 'A' <= c <= 'Z' || '0' <= c <= '9' || c == '_' || c == '$'
}

/// The `Debug` form of `str`: the result depends on the string alone. A string in which every
/// character stands for itself is only put in double quotes. Which other characters are
/// escaped, and how, is left to the Unicode tables.
#[verifier::external_body]
pub(crate) fn quote(s: &str) -> (r: String)
    ensures
        r@ == quoted(s@),
        (forall|i: int| 0 <= i < s@.len() ==> stands_for_itself(#[trigger] s@[i])) ==> r@
            == seq!['"'] + s@ + seq!['"'],
{
    format!("{:?}", s)
}

/// The first place from `i` on at which `part` stands in `s`.
pub open spec fn next_place(s: Seq<char>, part: Seq<char>, i: nat) -> Option<nat>
    decreases s.len() + 1 - i,
{
    if i + part.len() > s.len() {
        None
    } else if s.subrange(i as int, (i + part.len()) as int) == part {
        Some(i)
    } else {
        next_place(s, part, i + 1)
    }
}

/// The pieces of a string between the places at which `sep` stands. Of places that overlap
/// the first one counts. The empty string stands before, between and after all characters.
pub open spec fn pieces(s: Seq<char>, sep: Seq<char>) -> Seq<Seq<char>>
    decreases s.len(),
{
    if sep.len() == 0 {
        seq![Seq::empty()] + s.map_values(|c: char| seq![c]) + seq![Seq::empty()]
    } else {
        match next_place(s, sep, 0) {
            Some(i) if i + sep.len() <= s.len() => seq![s.take(i as int)] + pieces(
                s.skip((i + sep.len()) as int),
                sep,
            ),
            _ => seq![s],
        }
    }
}

/// Strings one after another, with `sep` between them.
pub open spec fn joined(parts: Seq<Seq<char>>, sep: Seq<char>) -> Seq<char>
    decreases parts.len(),
{
    if parts.len() == 0 {
        Seq::empty()
    } else if parts.len() == 1 {
        parts[0]
    } else {
        parts[0] + sep + joined(parts.skip(1), sep)
    }
}

/// A string with `to` wherever `from` stood.
pub open spec fn replaced(s: Seq<char>, from: Seq<char>, to: Seq<char>) -> Seq<char> {
    joined(pieces(s, from), to)
}

/// `str::replace` with a string pattern: every match is replaced. Of matches that overlap
/// the first one counts, and the empty pattern matches before, between and after all
/// characters.
#[verifier::external_body]
pub(crate) fn replace(s: &str, from: &str, to: &str) -> (r: String)
    ensures
        r@ == replaced(s@, from@, to@),
{
    s.replace(from, to)
}

/// `str::split` with a string pattern, collected in order: the pieces between the matches.
/// Of matches that overlap the first one counts, and the empty pattern separates every
/// character, along with the beginning and the end of the string.
#[verifier::external_body]
pub(crate) fn split(s: &str, sep: &str) -> (r: Vec<String>)
    ensures
        crate::ir::names_of(r@) == pieces(s@, sep@),
{
    s.split(sep).map(str::to_owned).collect()
}

/// Whether `part` occurs in `s`.
pub open spec fn occurs(part: Seq<char>, s: Seq<char>) -> bool {
    exists|i: int|
        0 <= i && i + part.len() <= s.len() && #[trigger] s.subrange(i, i + part.len()) == part
}

/// A string without leading white space.
pub open spec fn without_leading(s: Name) -> Name
    decreases s.len(),
{
    if s.len() > 0 && white_space(s[0]) {
        without_leading(s.subrange(1, s.len() as int))
    } else {
        s
    }
}

/// A string without trailing white space.
pub open spec fn without_trailing(s: Name) -> Name
    decreases s.len(),
{
    if s.len() > 0 && white_space(s.last()) {
        without_trailing(s.drop_last())
    } else {
        s
    }
}

/// A string without leading and trailing white space.
pub open spec fn trimmed(s: Name) -> Name {
    without_trailing(without_leading(s))
}

/// The characters of a string.
fn characters(s: &str) -> (r: Vec<char>)
    ensures
        r@ == s@,
{
    let mut r: Vec<char> = Vec::new();
    for c in it: s.chars()
        invariant
            r@ == it.seq().take(it.index()),
            it.seq() == s@,
    {
        r.push(c);
    }
    assert(r@ =~= s@);
    r
}

/// Whether the characters of `part` stand in `all` from the place `at` on.
fn stands(all: &Vec<char>, part: &Vec<char>, at: usize) -> (r: bool)
    requires
        at + part@.len() <= all@.len(),
    ensures
        r == (all@.subrange(at as int, at + part@.len()) == part@),
{
    let mut i: usize = 0;
    let len: usize = all.len();
    while i < part.len()
        invariant
            at + part@.len() <= all@.len(),
            len == all@.len(),
            i <= part@.len(),
            forall|j: int| 0 <= j < i ==> all@[at + j] == #[trigger] part@[j],
        decreases part@.len() - i,
    {
        if all[at + i] != part[i] {
            assert(all@.subrange(at as int, at + part@.len())[i as int] != part@[i as int]);
            return false;
        }
        i += 1;
    }
    assert(all@.subrange(at as int, at + part@.len()) =~= part@);
    true
}

/// Whether the part occurs in the string.
pub fn contains(s: &str, part: &str) -> (r: bool)
    ensures
        r == occurs(part@, s@),
{
    let all: Vec<char> = characters(s);
    let sought: Vec<char> = characters(part);
    if sought.len() > all.len() {
        return false;
    }
    let last: usize = all.len() - sought.len();
    let mut at: usize = 0;
    loop
        invariant
            all@ == s@,
            sought@ == part@,
            at <= last,
            last + sought@.len() == all@.len(),
            forall|i: int|
                0 <= i < at ==> #[trigger] all@.subrange(i, i + sought@.len()) != sought@,
        decreases last - at,
    {
        if stands(&all, &sought, at) {
            return true;
        }
        if at == last {
            return false;
        }
        at += 1;
    }
}

/// Whether the string begins with the prefix.
pub fn starts_with(s: &str, prefix: &str) -> (r: bool)
    ensures
        r == prefix@.is_prefix_of(s@),
{
    let all: Vec<char> = characters(s);
    let part: Vec<char> = characters(prefix);
    part.len() <= all.len() && stands(&all, &part, 0)
}

/// Whether the string ends with the suffix.
pub fn ends_with(s: &str, suffix: &str) -> (r: bool)
    ensures
        r == suffix@.is_suffix_of(s@),
{
    let all: Vec<char> = characters(s);
    let part: Vec<char> = characters(suffix);
    part.len() <= all.len() && stands(&all, &part, all.len() - part.len())
}

/// Removes leading and trailing white space.
pub fn trim(s: &str) -> (r: String)
    ensures
        r@ == trimmed(s@),
{
    let all: Vec<char> = characters(s);
    let mut start: usize = 0;
    assert(all@.subrange(0, all@.len() as int) =~= all@);
    while start < all.len() && is_white_space(all[start])
        invariant
            start <= all@.len(),
            without_leading(all@.subrange(start as int, all@.len() as int)) == without_leading(all@),
        decreases all@.len() - start,
    {
        let ghost rest: Name = all@.subrange(start as int, all@.len() as int);
        assert(rest.subrange(1, rest.len() as int) =~= all@.subrange(start + 1, all@.len() as int));
        assert(rest[0] == all@[start as int]);
        start += 1;
    }
    let ghost rest: Name = all@.subrange(start as int, all@.len() as int);
    assert(rest.len() > 0 ==> rest[0] == all@[start as int]);
    assert(without_leading(all@) == rest);
    let mut end: usize = all.len();
    while end > start && is_white_space(all[end - 1])
        invariant
            start <= end <= all@.len(),
            without_trailing(all@.subrange(start as int, end as int)) == without_trailing(rest),
        decreases end,
    {
        let ghost kept: Name = all@.subrange(start as int, end as int);
        assert(kept.drop_last() =~= all@.subrange(start as int, end - 1));
        assert(kept.last() == all@[end - 1]);
        end -= 1;
    }
    let ghost kept: Name = all@.subrange(start as int, end as int);
    assert(kept.len() > 0 ==> kept.last() == all@[end - 1]);
    assert(without_trailing(rest) == kept);
    s.substring_char(start, end).to_owned()
}

/// The code points of a string, as values.
pub open spec fn code_points(s: Name) -> Seq<Val> {
    s.map_values(|c: char| Val::Int(c as i64))
}

/// The code points of a string.
pub fn runes(s: &str) -> (r: Vec<Value>)
    ensures
        vals(r@) == code_points(s@),
{
    let all: Vec<char> = characters(s);
    let mut r: Vec<Value> = Vec::new();
    let mut i: usize = 0;
    while i < all.len()
        invariant
            i <= all@.len(),
            vals(r@) == code_points(all@.take(i as int)),
        decreases all@.len() - i,
    {
        let ghost before: Seq<Value> = r@;
        let c: char = all[i];
        r.push(Value::Int(c as i64));
        assert(all@.take(i + 1) =~= all@.take(i as int).push(c));
        assert(vals(r@) =~= vals(before).push(Val::Int(c as i64)));
        assert(code_points(all@.take(i + 1)) =~= code_points(all@.take(i as int)).push(
            Val::Int(c as i64),
        ));
        i += 1;
    }
    assert(all@.take(i as int) =~= all@);
    r
}

/// Where a part is found, it stands.
proof fn next_place_is_a_place(s: Seq<char>, part: Seq<char>, i: nat)
    ensures
        next_place(s, part, i) matches Some(j) ==> i <= j && j + part.len() <= s.len()
            && s.subrange(j as int, (j + part.len()) as int) == part,
    decreases s.len() + 1 - i,
{
    if i + part.len() <= s.len() && s.subrange(i as int, (i + part.len()) as int) != part {
        next_place_is_a_place(s, part, i + 1);
    }
}

/// A part that stands anywhere from `i` on is found.
proof fn every_place_is_found(s: Seq<char>, part: Seq<char>, i: nat, at: nat)
    requires
        i <= at,
        at + part.len() <= s.len(),
        s.subrange(at as int, (at + part.len()) as int) == part,
    ensures
        next_place(s, part, i) is Some,
    decreases s.len() + 1 - i,
{
    if s.subrange(i as int, (i + part.len()) as int) != part {
        every_place_is_found(s, part, i + 1, at);
    }
}

/// Characters joined with nothing between them.
proof fn join_characters(s: Seq<char>)
    ensures
        joined(s.map_values(|c: char| seq![c]) + seq![Seq::empty()], Seq::empty()) == s,
    decreases s.len(),
{
    let parts = s.map_values(|c: char| seq![c]) + seq![Seq::<char>::empty()];
    if s.len() > 0 {
        let rest = s.skip(1);
        join_characters(rest);
        assert(parts.skip(1) =~= rest.map_values(|c: char| seq![c]) + seq![Seq::<char>::empty()]);
        assert(parts[0] == seq![s[0]]);
        assert(s =~= seq![s[0]] + rest);
    } else {
        assert(parts =~= seq![Seq::<char>::empty()]);
        assert(s =~= Seq::<char>::empty());
    }
}

/// Splitting loses nothing: the pieces, joined by what they were split at, give the string
/// back.
pub proof fn splitting_loses_nothing(s: Seq<char>, sep: Seq<char>)
    ensures
        joined(pieces(s, sep), sep) == s,
    decreases s.len(),
{
    let parts = pieces(s, sep);
    if sep.len() == 0 {
        let chars = s.map_values(|c: char| seq![c]) + seq![Seq::<char>::empty()];
        join_characters(s);
        assert(parts.skip(1) =~= chars);
        assert(sep =~= Seq::<char>::empty());
        assert(parts[0] + sep + s =~= s);
    } else {
        next_place_is_a_place(s, sep, 0);
        if let Some(i) = next_place(s, sep, 0) {
            let rest = s.skip((i + sep.len()) as int);
            splitting_loses_nothing(rest, sep);
            assert(pieces(rest, sep).len() > 0);
            assert(parts.skip(1) =~= pieces(rest, sep));
            assert(s =~= s.take(i as int) + sep + rest);
        }
    }
}

/// Replacing a string by itself changes nothing.
pub proof fn replacing_by_itself_changes_nothing(s: Seq<char>, part: Seq<char>)
    ensures
        replaced(s, part, part) == s,
{
    splitting_loses_nothing(s, part);
}

/// A string that does not occur is not split at, and replacing it changes nothing.
pub proof fn what_does_not_occur_is_not_replaced(s: Seq<char>, part: Seq<char>, to: Seq<char>)
    requires
        !occurs(part, s),
    ensures
        pieces(s, part) == seq![s],
        replaced(s, part, to) == s,
{
    if part.len() == 0 {
        assert(s.subrange(0, 0int + part.len()) == part);
    } else {
        next_place_is_a_place(s, part, 0);
        if let Some(i) = next_place(s, part, 0) {
            assert(s.subrange(i as int, i as int + part.len()) == part);
        }
    }
}

/// A string is split in more than one piece exactly where what it is split at occurs.
pub proof fn what_occurs_is_split_at(s: Seq<char>, part: Seq<char>)
    ensures
        occurs(part, s) <==> pieces(s, part).len() > 1,
{
    if occurs(part, s) {
        let i = choose|i: int|
            0 <= i && i + part.len() <= s.len() && #[trigger] s.subrange(i, i + part.len()) == part;
        every_place_is_found(s, part, 0, i as nat);
        next_place_is_a_place(s, part, 0);
        if part.len() > 0 {
            let j = next_place(s, part, 0)->Some_0;
            assert(pieces(s.skip((j + part.len()) as int), part).len() > 0);
        }
    } else {
        what_does_not_occur_is_not_replaced(s, part, part);
    }
}

proof fn leading_is_white(s: Name) -> (i: int)
    ensures
        0 <= i <= s.len(),
        without_leading(s) == s.skip(i),
        forall|j: int| 0 <= j < i ==> white_space(#[trigger] s[j]),
        i < s.len() ==> !white_space(s[i]),
    decreases s.len(),
{
    if s.len() > 0 && white_space(s[0]) {
        let rest = s.subrange(1, s.len() as int);
        let i = leading_is_white(rest);
        assert(rest.skip(i) =~= s.skip(i + 1));
        assert forall|j: int| 0 <= j < i + 1 implies white_space(#[trigger] s[j]) by {
            if j > 0 {
                assert(rest[j - 1] == s[j]);
            }
        }
        if i + 1 < s.len() {
            assert(rest[i] == s[i + 1]);
        }
        i + 1
    } else {
        assert(s.skip(0) =~= s);
        0
    }
}

proof fn trailing_is_white(s: Name) -> (i: int)
    ensures
        0 <= i <= s.len(),
        without_trailing(s) == s.take(i),
        forall|j: int| i <= j < s.len() ==> white_space(#[trigger] s[j]),
        i > 0 ==> !white_space(s[i - 1]),
    decreases s.len(),
{
    if s.len() > 0 && white_space(s.last()) {
        let rest = s.drop_last();
        let i = trailing_is_white(rest);
        assert(rest.take(i) =~= s.take(i));
        assert forall|j: int| i <= j < s.len() implies white_space(#[trigger] s[j]) by {
            if j < s.len() - 1 {
                assert(rest[j] == s[j]);
            }
        }
        i
    } else {
        assert(s.take(s.len() as int) =~= s);
        s.len() as int
    }
}

/// Trimming takes white space off both ends, all of it, and nothing else.
pub proof fn trimming_takes_white_space_off_the_ends(s: Name) -> (r: (int, int))
    ensures
        ({
            let (i, j) = r;
            &&& 0 <= i <= j <= s.len()
            &&& trimmed(s) == s.subrange(i, j)
            &&& forall|k: int| 0 <= k < i || j <= k < s.len() ==> white_space(#[trigger] s[k])
            &&& i < j ==> !white_space(s[i]) && !white_space(s[j - 1])
        }),
{
    let i = leading_is_white(s);
    let rest = s.skip(i);
    let n = trailing_is_white(rest);
    let j = i + n;
    assert(rest.take(n) =~= s.subrange(i, j));
    assert forall|k: int| 0 <= k < i || j <= k < s.len() implies white_space(#[trigger] s[k]) by {
        if k >= j {
            assert(rest[k - i] == s[k]);
        }
    }
    if i < j {
        assert(rest[n - 1] == s[j - 1]);
    }
    (i, j)
}

} // verus!
