//! Character and character-sequence utilities the scanner is built on.
//!
//! Every executable function here is specified exactly against a spec-level
//! counterpart over `Seq<char>`; the scanner's own specification is written
//! in terms of those counterparts.

use vstd::prelude::*;
use vstd::string::*;

verus! {

/// ASCII whitespace, as the scanner understands it.
pub open spec fn is_space_char(c: char) -> bool {
    c == ' ' || c == '\t' || c == '\n' || c == '\r' || c == '\u{b}' || c == '\u{c}'
}

pub(crate) fn is_space(c: char) -> (r: bool)
    ensures
        r == is_space_char(c),
{
    c == ' ' || c == '\t' || c == '\n' || c == '\r' || c == '\u{b}' || c == '\u{c}'
}

/// Characters a variable name may consist of: ASCII letters, digits, `_`.
pub open spec fn is_word_char(c: char) -> bool {
    (97 <= c as u32 && c as u32 <= 122) || (65 <= c as u32 && c as u32 <= 90) || (48 <= c as u32
        && c as u32 <= 57) || c == '_'
}

pub(crate) fn is_word(c: char) -> (r: bool)
    ensures
        r == is_word_char(c),
{
    let u = c as u32;
    (97 <= u && u <= 122) || (65 <= u && u <= 90) || (48 <= u && u <= 57) || c == '_'
}

/// A word character is none of the characters the scanner treats specially.
pub proof fn lemma_word_char_plain(c: char)
    requires
        is_word_char(c),
    ensures
        !is_space_char(c),
        c != '#',
        c != '=',
        c != '(',
        c != ')',
        c != '"',
        c != '\'',
        c != '{',
        c != '}',
        c != '$',
{
    if c == ' ' {
        assert(c as u32 == 32);
    }
    if c == '\t' {
        assert(c as u32 == 9);
    }
    if c == '\n' {
        assert(c as u32 == 10);
    }
    if c == '\r' {
        assert(c as u32 == 13);
    }
    if c == '\u{b}' {
        assert(c as u32 == 11);
    }
    if c == '\u{c}' {
        assert(c as u32 == 12);
    }
    if c == '#' {
        assert(c as u32 == 35);
    }
    if c == '=' {
        assert(c as u32 == 61);
    }
    if c == '(' {
        assert(c as u32 == 40);
    }
    if c == ')' {
        assert(c as u32 == 41);
    }
    if c == '"' {
        assert(c as u32 == 34);
    }
    if c == '\'' {
        assert(c as u32 == 39);
    }
    if c == '{' {
        assert(c as u32 == 123);
    }
    if c == '}' {
        assert(c as u32 == 125);
    }
    if c == '$' {
        assert(c as u32 == 36);
    }
}

/// ASCII lower-casing of one character.
pub open spec fn lower_char(c: char) -> char {
    if 65 <= c as u32 && c as u32 <= 90 {
        ((c as u8) + 32) as char
    } else {
        c
    }
}

/// ASCII upper-casing of one character.
pub open spec fn upper_char(c: char) -> char {
    if 97 <= c as u32 && c as u32 <= 122 {
        ((c as u8) - 32) as char
    } else {
        c
    }
}

pub(crate) fn to_lower_char(c: char) -> (r: char)
    ensures
        r == lower_char(c),
{
    let u = c as u32;
    if 65 <= u && u <= 90 {
        ((c as u8) + 32) as char
    } else {
        c
    }
}

pub(crate) fn to_upper_char(c: char) -> (r: char)
    ensures
        r == upper_char(c),
{
    let u = c as u32;
    if 97 <= u && u <= 122 {
        ((c as u8) - 32) as char
    } else {
        c
    }
}

/// ASCII lower-casing of a whole sequence.
pub open spec fn lower(s: Seq<char>) -> Seq<char> {
    Seq::new(s.len(), |i: int| lower_char(s[i]))
}

/// ASCII upper-casing of a whole sequence.
pub open spec fn upper(s: Seq<char>) -> Seq<char> {
    Seq::new(s.len(), |i: int| upper_char(s[i]))
}

pub(crate) fn lower_vec(v: &Vec<char>) -> (r: Vec<char>)
    ensures
        r@ == lower(v@),
{
    let mut out: Vec<char> = Vec::new();
    let mut i: usize = 0;
    while i < v.len()
        invariant
            i <= v.len(),
            out@.len() == i,
            forall|j: int| 0 <= j < i ==> out@[j] == lower_char(v@[j]),
        decreases v.len() - i,
    {
        out.push(to_lower_char(v[i]));
        i = i + 1;
    }
    assert(out@ =~= lower(v@));
    out
}

pub(crate) fn upper_vec(v: &Vec<char>) -> (r: Vec<char>)
    ensures
        r@ == upper(v@),
{
    let mut out: Vec<char> = Vec::new();
    let mut i: usize = 0;
    while i < v.len()
        invariant
            i <= v.len(),
            out@.len() == i,
            forall|j: int| 0 <= j < i ==> out@[j] == upper_char(v@[j]),
        decreases v.len() - i,
    {
        out.push(to_upper_char(v[i]));
        i = i + 1;
    }
    assert(out@ =~= upper(v@));
    out
}

pub proof fn lemma_lower_char_idempotent(c: char)
    ensures
        lower_char(lower_char(c)) == lower_char(c),
{
    if 65 <= c as u32 && c as u32 <= 90 {
        let d = ((c as u8) + 32) as char;
        assert(d as u32 == c as u32 + 32);
    }
}

/// Lower-casing twice is the same as lower-casing once.
pub proof fn lemma_lower_idempotent(s: Seq<char>)
    ensures
        lower(lower(s)) == lower(s),
{
    assert forall|i: int| 0 <= i < s.len() implies lower_char(lower_char(s[i])) == lower_char(
        s[i],
    ) by {
        lemma_lower_char_idempotent(s[i]);
    }
    assert(lower(lower(s)) =~= lower(s));
}

/// The sequence with leading whitespace removed.
pub open spec fn trim_start(s: Seq<char>) -> Seq<char>
    decreases s.len(),
{
    if s.len() > 0 && is_space_char(s[0]) {
        trim_start(s.drop_first())
    } else {
        s
    }
}

/// The sequence with trailing whitespace removed.
pub open spec fn trim_end(s: Seq<char>) -> Seq<char>
    decreases s.len(),
{
    if s.len() > 0 && is_space_char(s.last()) {
        trim_end(s.drop_last())
    } else {
        s
    }
}

/// The sequence with leading and trailing whitespace removed.
pub open spec fn trim(s: Seq<char>) -> Seq<char> {
    trim_end(trim_start(s))
}

pub proof fn lemma_trim_start_len(s: Seq<char>)
    ensures
        trim_start(s).len() <= s.len(),
        s.len() > 0 && is_space_char(s[0]) ==> trim_start(s).len() < s.len(),
    decreases s.len(),
{
    if s.len() > 0 && is_space_char(s[0]) {
        lemma_trim_start_len(s.drop_first());
    }
}

pub proof fn lemma_trim_end_len(s: Seq<char>)
    ensures
        trim_end(s).len() <= s.len(),
    decreases s.len(),
{
    if s.len() > 0 && is_space_char(s.last()) {
        lemma_trim_end_len(s.drop_last());
    }
}

pub(crate) fn trim_vec(v: &Vec<char>) -> (r: Vec<char>)
    ensures
        r@ == trim(v@),
{
    let mut a: usize = 0;
    assert(v@.skip(0) =~= v@);
    while a < v.len() && is_space(v[a])
        invariant
            a <= v.len(),
            trim_start(v@) == trim_start(v@.skip(a as int)),
        decreases v.len() - a,
    {
        assert(v@.skip(a as int).drop_first() =~= v@.skip(a as int + 1));
        a = a + 1;
    }
    assert(v@.skip(a as int).len() == 0 || !is_space_char(v@.skip(a as int)[0]));
    assert(trim_start(v@) == v@.skip(a as int));
    let mut b: usize = v.len();
    assert(v@.skip(a as int).take(b - a as int) =~= v@.skip(a as int));
    while b > a && is_space(v[b - 1])
        invariant
            a <= b <= v.len(),
            trim_start(v@) == v@.skip(a as int),
            trim_end(v@.skip(a as int)) == trim_end(v@.skip(a as int).take(b - a)),
        decreases b,
    {
        assert(v@.skip(a as int).take(b - a as int).drop_last() =~= v@.skip(a as int).take(
            b - 1 - a as int,
        ));
        assert(v@.skip(a as int).take(b - a as int).last() == v@[b - 1]);
        b = b - 1;
    }
    let ghost t = v@.skip(a as int).take(b - a as int);
    assert(trim_end(t) == t) by {
        if t.len() > 0 {
            assert(t.last() == v@[b - 1]);
        }
    }
    let r = sub_vec(v, a, b);
    assert(r@ =~= t);
    r
}

/// A copy of `v[a..b]`.
pub(crate) fn sub_vec(v: &Vec<char>, a: usize, b: usize) -> (r: Vec<char>)
    requires
        a <= b <= v@.len(),
    ensures
        r@ == v@.subrange(a as int, b as int),
{
    let mut out: Vec<char> = Vec::new();
    let mut i: usize = a;
    while i < b
        invariant
            a <= i <= b <= v@.len(),
            out@.len() == i - a,
            forall|j: int| 0 <= j < out@.len() ==> out@[j] == v@[a + j],
        decreases b - i,
    {
        out.push(v[i]);
        i = i + 1;
    }
    assert(out@ =~= v@.subrange(a as int, b as int));
    out
}

pub(crate) fn extend_vec(dst: &mut Vec<char>, src: &Vec<char>)
    ensures
        final(dst)@ == old(dst)@ + src@,
{
    let mut i: usize = 0;
    while i < src.len()
        invariant
            i <= src@.len(),
            dst@.len() == old(dst)@.len() + i,
            forall|j: int| 0 <= j < old(dst)@.len() ==> dst@[j] == old(dst)@[j],
            forall|j: int| 0 <= j < i ==> dst@[old(dst)@.len() + j] == src@[j],
        decreases src.len() - i,
    {
        dst.push(src[i]);
        i = i + 1;
    }
    assert(dst@ =~= old(dst)@ + src@);
}

/// Index of the first occurrence of `c`, if any.
pub open spec fn find_char(s: Seq<char>, c: char) -> Option<int>
    decreases s.len(),
{
    if s.len() == 0 {
        None
    } else if s[0] == c {
        Some(0int)
    } else {
        match find_char(s.drop_first(), c) {
            Some(i) => Some(i + 1),
            None => None,
        }
    }
}

pub proof fn lemma_find_char_props(s: Seq<char>, c: char)
    ensures
        match find_char(s, c) {
            Some(i) => 0 <= i < s.len() && s[i] == c && forall|j: int| 0 <= j < i ==> s[j] != c,
            None => forall|j: int| 0 <= j < s.len() ==> s[j] != c,
        },
    decreases s.len(),
{
    if s.len() > 0 && s[0] != c {
        lemma_find_char_props(s.drop_first(), c);
        let rest = s.drop_first();
        match find_char(rest, c) {
            Some(i2) => {
                assert(s[i2 + 1] == rest[i2]);
                assert forall|j: int| 0 <= j < i2 + 1 implies s[j] != c by {
                    if j >= 1 {
                        assert(s[j] == rest[j - 1]);
                    }
                }
            },
            None => {
                assert forall|j: int| 0 <= j < s.len() implies s[j] != c by {
                    if j >= 1 {
                        assert(s[j] == rest[j - 1]);
                    }
                }
            },
        }
    }
}

pub(crate) fn find_char_vec(v: &Vec<char>, c: char) -> (r: Option<usize>)
    ensures
        match r {
            Some(i) => find_char(v@, c) == Some(i as int),
            None => find_char(v@, c) is None,
        },
{
    let mut i: usize = 0;
    assert(v@.skip(0) =~= v@);
    while i < v.len()
        invariant
            i <= v@.len(),
            find_char(v@, c) == match find_char(v@.skip(i as int), c) {
                Some(j) => Some(i + j),
                None => None::<int>,
            },
        decreases v.len() - i,
    {
        if v[i] == c {
            assert(v@.skip(i as int)[0] == c);
            return Some(i);
        }
        assert(v@.skip(i as int).drop_first() =~= v@.skip(i as int + 1));
        i = i + 1;
    }
    assert(v@.skip(i as int).len() == 0);
    None
}

/// Index of the last occurrence of `c`, if any.
pub open spec fn rfind_char(s: Seq<char>, c: char) -> Option<int>
    decreases s.len(),
{
    if s.len() == 0 {
        None
    } else if s.last() == c {
        Some(s.len() - 1)
    } else {
        rfind_char(s.drop_last(), c)
    }
}

pub(crate) fn rfind_char_vec(v: &Vec<char>, c: char) -> (r: Option<usize>)
    ensures
        match r {
            Some(i) => rfind_char(v@, c) == Some(i as int),
            None => rfind_char(v@, c) is None,
        },
{
    let mut i: usize = v.len();
    assert(v@.take(i as int) =~= v@);
    while i > 0
        invariant
            i <= v@.len(),
            rfind_char(v@, c) == rfind_char(v@.take(i as int), c),
        decreases i,
    {
        assert(v@.take(i as int).last() == v@[i - 1]);
        if v[i - 1] == c {
            return Some(i - 1);
        }
        assert(v@.take(i as int).drop_last() =~= v@.take(i as int - 1));
        i = i - 1;
    }
    assert(v@.take(0).len() == 0);
    None
}

/// A first occurrence pins `find_char` down.
pub proof fn lemma_find_char_unique(s: Seq<char>, c: char, i: int)
    requires
        0 <= i < s.len(),
        s[i] == c,
        forall|j: int| 0 <= j < i ==> s[j] != c,
    ensures
        find_char(s, c) == Some(i),
{
    lemma_find_char_props(s, c);
    match find_char(s, c) {
        Some(i2) => {
            if i2 < i {
                assert(s[i2] != c);
            }
            if i < i2 {
                assert(s[i] != c);
            }
        },
        None => {
            assert(s[i] != c);
        },
    }
}

/// Whether `c` occurs in `s`.
pub open spec fn has_char(s: Seq<char>, c: char) -> bool {
    find_char(s, c) is Some
}

pub proof fn lemma_has_char_witness(s: Seq<char>, c: char, i: int)
    requires
        0 <= i < s.len(),
        s[i] == c,
    ensures
        has_char(s, c),
{
    lemma_find_char_props(s, c);
    if find_char(s, c) is None {
        assert(s[i] != c);
    }
}

pub(crate) fn has_char_vec(v: &Vec<char>, c: char) -> (r: bool)
    ensures
        r == has_char(v@, c),
{
    find_char_vec(v, c).is_some()
}

/// How often `c` occurs in `s`.
pub open spec fn count_char(s: Seq<char>, c: char) -> nat
    decreases s.len(),
{
    if s.len() == 0 {
        0
    } else {
        count_char(s.drop_last(), c) + if s.last() == c {
            1nat
        } else {
            0nat
        }
    }
}

pub proof fn lemma_count_char_le_len(s: Seq<char>, c: char)
    ensures
        count_char(s, c) <= s.len(),
    decreases s.len(),
{
    if s.len() > 0 {
        lemma_count_char_le_len(s.drop_last(), c);
    }
}

pub(crate) fn count_char_vec(v: &Vec<char>, c: char) -> (r: usize)
    ensures
        r == count_char(v@, c),
{
    let mut i: usize = 0;
    let mut n: usize = 0;
    while i < v.len()
        invariant
            i <= v@.len(),
            n == count_char(v@.take(i as int), c),
            n <= i,
        decreases v.len() - i,
    {
        proof {
            assert(v@.take(i as int + 1).drop_last() =~= v@.take(i as int));
            assert(v@.take(i as int + 1).last() == v@[i as int]);
            lemma_count_char_le_len(v@.take(i as int), c);
        }
        if v[i] == c {
            n = n + 1;
        }
        i = i + 1;
    }
    assert(v@.take(i as int) =~= v@);
    n
}

/// Whether `s` begins with `p`.
pub open spec fn starts_with(s: Seq<char>, p: Seq<char>) -> bool {
    s.len() >= p.len() && s.take(p.len() as int) == p
}

/// Whether `p` occurs as a contiguous subsequence of `s`.
pub open spec fn contains_sub(s: Seq<char>, p: Seq<char>) -> bool
    decreases s.len(),
{
    if starts_with(s, p) {
        true
    } else if s.len() == 0 {
        false
    } else {
        contains_sub(s.drop_first(), p)
    }
}

/// A sequence that contains `p` contains `p`'s first character.
pub proof fn lemma_contains_implies_has(s: Seq<char>, p: Seq<char>)
    requires
        p.len() > 0,
        contains_sub(s, p),
    ensures
        has_char(s, p[0]),
    decreases s.len(),
{
    if starts_with(s, p) {
        assert(s.take(p.len() as int)[0] == p[0]);
        lemma_has_char_witness(s, p[0], 0);
    } else {
        lemma_contains_implies_has(s.drop_first(), p);
        let rest = s.drop_first();
        lemma_find_char_props(rest, p[0]);
        match find_char(rest, p[0]) {
            Some(i) => {
                assert(s[i + 1] == rest[i]);
                lemma_has_char_witness(s, p[0], i + 1);
            },
            None => {},
        }
    }
}

/// Trimming leaves a sequence with non-whitespace ends unchanged.
pub proof fn lemma_trim_noop(s: Seq<char>)
    requires
        s.len() > 0,
        !is_space_char(s[0]),
        !is_space_char(s.last()),
    ensures
        trim(s) == s,
{
    assert(trim_start(s) == s);
    assert(trim_end(s) == s);
}

/// Whether `p` matches `v` at offset `i`.
pub(crate) fn match_at(v: &Vec<char>, p: &Vec<char>, i: usize) -> (r: bool)
    requires
        i <= v@.len(),
    ensures
        r == starts_with(v@.skip(i as int), p@),
{
    let n = v.len();
    if n - i < p.len() {
        return false;
    }
    let mut j: usize = 0;
    while j < p.len()
        invariant
            j <= p@.len(),
            i + p@.len() <= v@.len(),
            v@.len() == n,
            forall|k: int| 0 <= k < j ==> v@[i + k] == p@[k],
        decreases p.len() - j,
    {
        assert(i + j < n);
        if v[i + j] != p[j] {
            assert(v@.skip(i as int).take(p@.len() as int)[j as int] != p@[j as int]);
            return false;
        }
        j = j + 1;
    }
    assert(v@.skip(i as int).take(p@.len() as int) =~= p@);
    true
}

pub(crate) fn starts_with_vec(v: &Vec<char>, p: &Vec<char>) -> (r: bool)
    ensures
        r == starts_with(v@, p@),
{
    assert(v@.skip(0) =~= v@);
    match_at(v, p, 0)
}

pub(crate) fn contains_sub_vec(v: &Vec<char>, p: &Vec<char>) -> (r: bool)
    ensures
        r == contains_sub(v@, p@),
{
    if p.len() == 0 {
        assert(starts_with(v@, p@)) by {
            assert(v@.take(0) =~= p@);
        }
        return true;
    }
    let mut i: usize = 0;
    assert(v@.skip(0) =~= v@);
    while i < v.len()
        invariant
            i <= v@.len(),
            p@.len() > 0,
            contains_sub(v@, p@) == contains_sub(v@.skip(i as int), p@),
        decreases v.len() - i,
    {
        if match_at(v, p, i) {
            return true;
        }
        assert(v@.skip(i as int).drop_first() =~= v@.skip(i as int + 1));
        i = i + 1;
    }
    assert(v@.skip(i as int).len() == 0);
    false
}

/// Every occurrence of `p` replaced by `r`, scanning left to right without
/// overlap; the sequence itself when `p` is empty.
pub open spec fn replace_all(s: Seq<char>, p: Seq<char>, r: Seq<char>) -> Seq<char>
    decreases s.len(),
{
    if p.len() == 0 || s.len() < p.len() {
        s
    } else if starts_with(s, p) {
        r + replace_all(s.skip(p.len() as int), p, r)
    } else {
        seq![s[0]] + replace_all(s.drop_first(), p, r)
    }
}

pub(crate) fn replace_all_vec(v: &Vec<char>, p: &Vec<char>, r: &Vec<char>) -> (out: Vec<char>)
    requires
        p@.len() > 0,
    ensures
        out@ == replace_all(v@, p@, r@),
{
    let mut out: Vec<char> = Vec::new();
    let mut i: usize = 0;
    assert(v@.skip(0) =~= v@);
    assert(out@ + replace_all(v@, p@, r@) =~= replace_all(v@, p@, r@));
    while i < v.len()
        invariant
            i <= v@.len(),
            p@.len() > 0,
            replace_all(v@, p@, r@) == out@ + replace_all(v@.skip(i as int), p@, r@),
        decreases v.len() - i,
    {
        let ghost rest = v@.skip(i as int);
        let ghost out0 = out@;
        if match_at(v, p, i) {
            let ghost tail = v@.skip(i as int + p@.len());
            proof {
                assert(rest.len() >= p@.len());
                assert(rest.skip(p@.len() as int) =~= tail);
                assert(replace_all(rest, p@, r@) == r@ + replace_all(tail, p@, r@));
            }
            extend_vec(&mut out, r);
            proof {
                assert(out0 + replace_all(rest, p@, r@) =~= out@ + replace_all(tail, p@, r@));
            }
            i = i + p.len();
        } else {
            let c = v[i];
            out.push(c);
            proof {
                let tail = v@.skip(i as int + 1);
                assert(rest.drop_first() =~= tail);
                if rest.len() < p@.len() {
                    assert(replace_all(rest, p@, r@) == rest);
                    assert(tail.len() < p@.len());
                    assert(replace_all(tail, p@, r@) == tail);
                    assert(rest =~= seq![rest[0]] + tail);
                }
                assert(replace_all(rest, p@, r@) == seq![c] + replace_all(tail, p@, r@));
                assert(out0 + (seq![c] + replace_all(tail, p@, r@)) =~= out@ + replace_all(
                    tail,
                    p@,
                    r@,
                ));
            }
            i = i + 1;
        }
    }
    assert(v@.skip(i as int).len() == 0);
    assert(replace_all(v@.skip(i as int), p@, r@) == v@.skip(i as int));
    assert(out@ =~= out@ + v@.skip(i as int));
    out
}

/// Runs of whitespace collapsed to a single space, with no run kept at the
/// very end; expects its input to already lack leading whitespace.
pub open spec fn squeeze(s: Seq<char>) -> Seq<char>
    decreases s.len(),
    via squeeze_decreases
{
    if s.len() == 0 {
        Seq::empty()
    } else if !is_space_char(s[0]) {
        seq![s[0]] + squeeze(s.drop_first())
    } else {
        let rest = trim_start(s);
        if rest.len() == 0 {
            Seq::empty()
        } else {
            seq![' '] + squeeze(rest)
        }
    }
}

#[via_fn]
proof fn squeeze_decreases(s: Seq<char>) {
    if s.len() > 0 && is_space_char(s[0]) {
        lemma_trim_start_len(s);
    }
}

/// The whitespace normalization applied to array and multi-line values:
/// surrounding whitespace dropped, inner runs collapsed to single spaces.
pub open spec fn normalize_ws(s: Seq<char>) -> Seq<char> {
    squeeze(trim_start(s))
}

pub(crate) fn normalize_ws_vec(v: &Vec<char>) -> (out: Vec<char>)
    ensures
        out@ == normalize_ws(v@),
{
    let mut i: usize = 0;
    assert(v@.skip(0) =~= v@);
    while i < v.len() && is_space(v[i])
        invariant
            i <= v@.len(),
            trim_start(v@) == trim_start(v@.skip(i as int)),
        decreases v.len() - i,
    {
        assert(v@.skip(i as int).drop_first() =~= v@.skip(i as int + 1));
        i = i + 1;
    }
    assert(trim_start(v@) == v@.skip(i as int));
    let mut out: Vec<char> = Vec::new();
    while i < v.len()
        invariant
            i <= v@.len(),
            !(i < v@.len()) || !is_space_char(v@[i as int]) || out@.len() > 0,
            normalize_ws(v@) == out@ + squeeze(v@.skip(i as int)),
        decreases v.len() - i,
    {
        let c = v[i];
        let ghost rest = v@.skip(i as int);
        assert(rest[0] == v@[i as int]);
        if !is_space(c) {
            out.push(c);
            assert(rest.drop_first() =~= v@.skip(i as int + 1));
            assert(squeeze(rest) == seq![c] + squeeze(v@.skip(i as int + 1)));
            i = i + 1;
        } else {
            let mut j: usize = i;
            while j < v.len() && is_space(v[j])
                invariant
                    i <= j <= v@.len(),
                    trim_start(v@.skip(i as int)) == trim_start(v@.skip(j as int)),
                decreases v.len() - j,
            {
                assert(v@.skip(j as int).drop_first() =~= v@.skip(j as int + 1));
                j = j + 1;
            }
            assert(trim_start(rest) == v@.skip(j as int));
            if j < v.len() {
                out.push(' ');
                assert(squeeze(rest) == seq![' '] + squeeze(v@.skip(j as int)));
            } else {
                assert(v@.skip(j as int).len() == 0);
                assert(squeeze(rest) =~= Seq::<char>::empty());
                assert(out@ + squeeze(rest) =~= out@ + squeeze(v@.skip(j as int)));
            }
            i = j;
        }
    }
    assert(v@.skip(i as int).len() == 0);
    assert(squeeze(v@.skip(i as int)) =~= Seq::<char>::empty());
    assert(out@ =~= out@ + squeeze(v@.skip(i as int)));
    out
}

/// A line as produced by splitting at `\n`: a terminating carriage return
/// that preceded the newline is dropped.
pub open spec fn strip_cr(s: Seq<char>) -> Seq<char> {
    if s.len() > 0 && s.last() == '\r' {
        s.drop_last()
    } else {
        s
    }
}

/// The document cut into lines at `\n`, dropping a `\r` before each cut; a
/// trailing newline does not open a final empty line.
pub open spec fn lines_of(s: Seq<char>) -> Seq<Seq<char>>
    decreases s.len(),
    via lines_of_decreases
{
    if s.len() == 0 {
        Seq::empty()
    } else {
        match find_char(s, '\n') {
            Some(i) => seq![strip_cr(s.take(i))] + lines_of(s.skip(i + 1)),
            None => seq![s],
        }
    }
}

#[via_fn]
proof fn lines_of_decreases(s: Seq<char>) {
    if s.len() > 0 {
        lemma_find_char_props(s, '\n');
    }
}

pub(crate) fn lines_vec(v: &Vec<char>) -> (out: Vec<Vec<char>>)
    ensures
        out@.len() == lines_of(v@).len(),
        forall|k: int| 0 <= k < out@.len() ==> out@[k]@ == lines_of(v@)[k],
{
    let mut out: Vec<Vec<char>> = Vec::new();
    let mut i: usize = 0;
    let ghost all = lines_of(v@);
    assert(v@.skip(0) =~= v@);
    while i < v.len()
        invariant
            i <= v@.len(),
            all == lines_of(v@),
            all.len() == out@.len() + lines_of(v@.skip(i as int)).len(),
            forall|k: int| 0 <= k < out@.len() ==> out@[k]@ == all[k],
            forall|k: int|
                0 <= k < lines_of(v@.skip(i as int)).len() ==> lines_of(v@.skip(i as int))[k]
                    == all[out@.len() + k],
        decreases v.len() - i,
    {
        let ghost rest = v@.skip(i as int);
        let end = find_char_from(v, '\n', i);
        let mut line: Vec<char>;
        let next: usize;
        match end {
            Some(e) => {
                proof {
                    lemma_find_char_props(rest, '\n');
                }
                line = sub_vec(v, i, e);
                assert(line@ =~= rest.take(e - i));
                if line.len() > 0 && line[line.len() - 1] == '\r' {
                    let last = line.len() - 1;
                    line = sub_vec(&line, 0, last);
                    assert(line@ =~= rest.take(e - i).drop_last());
                }
                assert(line@ == strip_cr(rest.take(e - i)));
                next = e + 1;
                assert(rest.skip(e - i + 1) =~= v@.skip(next as int));
                assert(lines_of(rest) == seq![strip_cr(rest.take(e - i))] + lines_of(
                    v@.skip(next as int),
                ));
            },
            None => {
                proof {
                    lemma_find_char_props(rest, '\n');
                }
                line = sub_vec(v, i, v.len());
                assert(line@ =~= rest);
                next = v.len();
                assert(v@.skip(next as int).len() == 0);
                assert(lines_of(rest) == seq![rest] + lines_of(v@.skip(next as int)));
            },
        }
        proof {
            let done = out@.len() as int;
            assert(lines_of(rest)[0] == line@);
            assert(all[done] == line@);
            assert forall|k: int|
                0 <= k < lines_of(v@.skip(next as int)).len() implies lines_of(
                v@.skip(next as int),
            )[k] == all[done + 1 + k] by {
                assert(lines_of(rest)[k + 1] == lines_of(v@.skip(next as int))[k]);
            }
        }
        out.push(line);
        i = next;
    }
    assert(lines_of(v@.skip(i as int)).len() == 0);
    out
}

/// Total length of a sequence of lines.
pub open spec fn sum_lens(ls: Seq<Seq<char>>) -> nat
    decreases ls.len(),
{
    if ls.len() == 0 {
        0
    } else {
        ls[0].len() + sum_lens(ls.drop_first())
    }
}

pub proof fn lemma_sum_lens_add(x: Seq<Seq<char>>, y: Seq<Seq<char>>)
    ensures
        sum_lens(x + y) == sum_lens(x) + sum_lens(y),
    decreases x.len(),
{
    if x.len() == 0 {
        assert(x + y =~= y);
    } else {
        assert((x + y).drop_first() =~= x.drop_first() + y);
        assert((x + y)[0] == x[0]);
        lemma_sum_lens_add(x.drop_first(), y);
    }
}

/// The lines of a document are no longer, in total, than the document.
pub proof fn lemma_lines_of_total_len(s: Seq<char>)
    ensures
        sum_lens(lines_of(s)) <= s.len(),
    decreases s.len(),
{
    if s.len() > 0 {
        lemma_find_char_props(s, '\n');
        match find_char(s, '\n') {
            Some(i) => {
                let head = strip_cr(s.take(i));
                let tail = lines_of(s.skip(i + 1));
                assert(lines_of(s) == seq![head] + tail);
                lemma_sum_lens_add(seq![head], tail);
                assert(sum_lens(Seq::<Seq<char>>::empty()) == 0);
                assert(seq![head].drop_first() =~= Seq::<Seq<char>>::empty());
                assert(sum_lens(seq![head]) == head.len());
                lemma_lines_of_total_len(s.skip(i + 1));
            },
            None => {
                assert(lines_of(s) == seq![s]);
                assert(sum_lens(Seq::<Seq<char>>::empty()) == 0);
                assert(seq![s].drop_first() =~= Seq::<Seq<char>>::empty());
                assert(sum_lens(seq![s]) == s.len());
            },
        }
    }
}

pub proof fn lemma_sum_lens_sub(ls: Seq<Seq<char>>, a: int, b: int)
    requires
        0 <= a <= b <= ls.len(),
    ensures
        sum_lens(ls.subrange(a, b)) <= sum_lens(ls),
    decreases ls.len(),
{
    assert(ls =~= ls.subrange(0, a) + ls.subrange(a, b) + ls.subrange(b, ls.len() as int));
    lemma_sum_lens_add(ls.subrange(0, a) + ls.subrange(a, b), ls.subrange(b, ls.len() as int));
    lemma_sum_lens_add(ls.subrange(0, a), ls.subrange(a, b));
}

/// The trimmed form of a sequence is no longer than the sequence.
pub proof fn lemma_trim_le_len(s: Seq<char>)
    ensures
        trim(s).len() <= s.len(),
{
    lemma_trim_start_len(s);
    lemma_trim_end_len(trim_start(s));
}

/// The characters of a string, as a vector.
pub(crate) fn to_char_vec(s: &str) -> (v: Vec<char>)
    ensures
        v@ == s@,
{
    let n = s.unicode_len();
    let mut v: Vec<char> = Vec::new();
    let mut i: usize = 0;
    while i < n
        invariant
            i <= n,
            n == s@.len(),
            v@.len() == i,
            forall|j: int| 0 <= j < i ==> v@[j] == s@[j],
        decreases n - i,
    {
        v.push(s.get_char(i));
        i = i + 1;
    }
    assert(v@ =~= s@);
    v
}

/// Relies on `String`'s `FromIterator<char>` implementation: collecting an
/// iterator of characters yields the string of exactly those characters.
#[verifier::external_body]
pub(crate) fn chars_to_string(v: &Vec<char>) -> (s: String)
    ensures
        s@ == v@,
{
    v.iter().collect()
}

/// First occurrence of `c` in `v` at or after `start`.
pub(crate) fn find_char_from(v: &Vec<char>, c: char, start: usize) -> (r: Option<usize>)
    requires
        start <= v@.len(),
    ensures
        match r {
            Some(i) => start <= i && find_char(v@.skip(start as int), c) == Some(i - start),
            None => find_char(v@.skip(start as int), c) is None,
        },
{
    let mut i: usize = start;
    while i < v.len()
        invariant
            start <= i <= v@.len(),
            find_char(v@.skip(start as int), c) == match find_char(v@.skip(i as int), c) {
                Some(j) => Some(i - start + j),
                None => None::<int>,
            },
        decreases v.len() - i,
    {
        if v[i] == c {
            assert(v@.skip(i as int)[0] == c);
            return Some(i);
        }
        assert(v@.skip(i as int).drop_first() =~= v@.skip(i as int + 1));
        i = i + 1;
    }
    assert(v@.skip(i as int).len() == 0);
    None
}

} // verus!
