//! The recipe-variable extractor: a line-oriented scanner over an
//! ebuild-style document that collects top-level variable assignments into a
//! case-insensitive store.
//!
//! The whole extraction is pinned down by the spec-level functions in this
//! module (`scan_lines`, `resolve_store`, `spec_parse`): `EbuildData::parse`
//! is proved to return exactly `spec_parse` of its input. Parsing is total:
//! it never fails, however malformed the document.

use vstd::prelude::*;

use crate::text::{
    chars_to_string, contains_sub, contains_sub_vec, count_char, count_char_vec, extend_vec,
    find_char, find_char_vec, has_char, has_char_vec, is_space_char, is_word, is_word_char,
    lemma_contains_implies_has, lemma_count_char_le_len, lemma_find_char_props,
    lemma_find_char_unique, lemma_lines_of_total_len, lemma_lower_idempotent, lemma_sum_lens_sub,
    lemma_trim_le_len, lemma_trim_noop, lemma_word_char_plain, lines_of, lines_vec, lower,
    lower_char, lower_vec,
    normalize_ws, normalize_ws_vec, replace_all, replace_all_vec, rfind_char, rfind_char_vec,
    starts_with, starts_with_vec, sub_vec, sum_lens, to_char_vec, trim, trim_vec, upper, upper_vec,
};

verus! {

/// The mathematical content of a store: name/value pairs in insertion order.
pub type SpecStore = Seq<(Seq<char>, Seq<char>)>;

/// Index of the first entry whose name is `k`, if any.
pub open spec fn assoc_find(es: SpecStore, k: Seq<char>) -> Option<int>
    decreases es.len(),
{
    if es.len() == 0 {
        None
    } else if es[0].0 == k {
        Some(0int)
    } else {
        match assoc_find(es.drop_first(), k) {
            Some(i) => Some(i + 1),
            None => None,
        }
    }
}

/// Value of the first entry named `k`, if any.
pub open spec fn assoc_lookup(es: SpecStore, k: Seq<char>) -> Option<Seq<char>> {
    match assoc_find(es, k) {
        Some(i) => Some(es[i].1),
        None => None,
    }
}

/// The store after binding `k` to `v`: the first entry named `k` is
/// overwritten in place, or a new entry is appended.
pub open spec fn assoc_update(es: SpecStore, k: Seq<char>, v: Seq<char>) -> SpecStore {
    match assoc_find(es, k) {
        Some(i) => es.update(i, (k, v)),
        None => es.push((k, v)),
    }
}

pub proof fn lemma_assoc_find_props(es: SpecStore, k: Seq<char>)
    ensures
        match assoc_find(es, k) {
            Some(i) => 0 <= i < es.len() && es[i].0 == k && forall|j: int|
                0 <= j < i ==> es[j].0 != k,
            None => forall|j: int| 0 <= j < es.len() ==> es[j].0 != k,
        },
    decreases es.len(),
{
    if es.len() > 0 && es[0].0 != k {
        lemma_assoc_find_props(es.drop_first(), k);
        let rest = es.drop_first();
        match assoc_find(rest, k) {
            Some(i2) => {
                assert(es[i2 + 1] == rest[i2]);
                assert forall|j: int| 0 <= j < i2 + 1 implies es[j].0 != k by {
                    if j >= 1 {
                        assert(es[j] == rest[j - 1]);
                    }
                }
            },
            None => {
                assert forall|j: int| 0 <= j < es.len() implies es[j].0 != k by {
                    if j >= 1 {
                        assert(es[j] == rest[j - 1]);
                    }
                }
            },
        }
    }
}

/// A first match pins `assoc_find` down: if `es[i]` is named `k` and no
/// earlier entry is, then `assoc_find` returns exactly `i`.
pub proof fn lemma_assoc_find_unique(es: SpecStore, k: Seq<char>, i: int)
    requires
        0 <= i < es.len(),
        es[i].0 == k,
        forall|j: int| 0 <= j < i ==> es[j].0 != k,
    ensures
        assoc_find(es, k) == Some(i),
{
    lemma_assoc_find_props(es, k);
    match assoc_find(es, k) {
        Some(i2) => {
            if i2 < i {
                assert(es[i2].0 != k);
            }
            if i < i2 {
                assert(es[i].0 != k);
            }
        },
        None => {
            assert(es[i].0 != k);
        },
    }
}

/// The pattern `${NAME}`.
pub open spec fn brace_pat(name: Seq<char>) -> Seq<char> {
    seq!['$', '{'] + name + seq!['}']
}

/// The pattern `$NAME`.
pub open spec fn bare_pat(name: Seq<char>) -> Seq<char> {
    seq!['$'] + name
}

/// Both spellings of a reference to `name` replaced by `rep`: first the
/// braced form, then the bare form.
pub open spec fn subst_pair(s: Seq<char>, name: Seq<char>, rep: Seq<char>) -> Seq<char> {
    replace_all(replace_all(s, brace_pat(name), rep), bare_pat(name), rep)
}

/// Immediate resolution of references to the variable currently being
/// assigned, using its previously stored value if there is one.
pub open spec fn resolve_self(store: SpecStore, name: Seq<char>, raw: Seq<char>) -> Seq<char> {
    match assoc_lookup(store, lower(name)) {
        Some(prior) => subst_pair(subst_pair(raw, upper(name), prior), lower(name), prior),
        None => raw,
    }
}

/// Whether a name consists of word characters only.
pub open spec fn all_word_chars(name: Seq<char>) -> bool {
    forall|j: int| 0 <= j < name.len() ==> is_word_char(name[j])
}

/// The keyword that may open a shell function definition.
pub open spec fn fn_kw() -> Seq<char> {
    seq!['f', 'u', 'n', 'c', 't', 'i', 'o', 'n', ' ']
}

/// Whether the line after `i` opens with a brace.
pub open spec fn next_starts_brace(lines: Seq<Seq<char>>, i: int) -> bool {
    i + 1 < lines.len() && starts_with(trim(lines[i + 1]), seq!['{'])
}

/// Whether the line after `i` opens with a parenthesis.
pub open spec fn next_starts_paren(lines: Seq<Seq<char>>, i: int) -> bool {
    i + 1 < lines.len() && starts_with(trim(lines[i + 1]), seq!['('])
}

/// Whether the trimmed line `t` at position `i` starts a shell function.
pub open spec fn is_function_start(lines: Seq<Seq<char>>, i: int, t: Seq<char>) -> bool {
    (contains_sub(t, seq!['(', ')']) && (has_char(t, '{') || next_starts_brace(lines, i)))
        || (starts_with(t, fn_kw()) && (has_char(t, '{') || next_starts_brace(lines, i)))
}

/// First index after a function body: lines are consumed while a running
/// open-minus-close brace count stays positive, stopping at the first line
/// that brings it to zero or below while containing a closing brace; an
/// unterminated body consumes the rest of the document.
pub open spec fn skip_function(lines: Seq<Seq<char>>, j: int, cnt: int, cur: Seq<char>) -> int
    decreases lines.len() - j,
{
    let cnt2 = cnt + count_char(cur, '{') - count_char(cur, '}');
    if cnt2 <= 0 && has_char(cur, '}') {
        j + 1
    } else if j + 1 < lines.len() {
        skip_function(lines, j + 1, cnt2, trim(lines[j + 1]))
    } else {
        lines.len() as int
    }
}

pub proof fn lemma_skip_function_bounds(lines: Seq<Seq<char>>, j: int, cnt: int, cur: Seq<char>)
    requires
        0 <= j < lines.len(),
    ensures
        j + 1 <= skip_function(lines, j, cnt, cur) <= lines.len(),
    decreases lines.len() - j,
{
    let cnt2 = cnt + count_char(cur, '{') - count_char(cur, '}');
    if !(cnt2 <= 0 && has_char(cur, '}')) && j + 1 < lines.len() {
        lemma_skip_function_bounds(lines, j + 1, cnt2, trim(lines[j + 1]));
    }
}

/// Continuation of a multi-line array value: lines are appended,
/// space-separated, until one contains a closing parenthesis, which ends the
/// value; an unterminated array consumes the rest of the document.
pub open spec fn array_walk(lines: Seq<Seq<char>>, j: int, acc: Seq<char>) -> (int, Seq<char>)
    decreases lines.len() - j,
{
    if j < 0 || j >= lines.len() {
        (lines.len() as int, acc)
    } else {
        let lt = trim(lines[j]);
        match find_char(lt, ')') {
            Some(e) => (j + 1, acc + seq![' '] + lt.take(e)),
            None => array_walk(lines, j + 1, acc + seq![' '] + lt),
        }
    }
}

pub proof fn lemma_array_walk_bounds(lines: Seq<Seq<char>>, j: int, acc: Seq<char>)
    requires
        0 <= j,
    ensures
        array_walk(lines, j, acc).0 <= lines.len(),
        j <= lines.len() ==> j <= array_walk(lines, j, acc).0,
    decreases lines.len() - j,
{
    if 0 <= j < lines.len() {
        let lt = trim(lines[j]);
        if find_char(lt, ')') is None {
            lemma_array_walk_bounds(lines, j + 1, acc + seq![' '] + lt);
        }
    }
}

/// Continuation of a multi-line quoted value: lines are appended,
/// space-separated, until one contains the closing quote character, at which
/// the value is truncated; an unterminated quote consumes the rest of the
/// document.
pub open spec fn quote_walk(lines: Seq<Seq<char>>, j: int, acc: Seq<char>, q: char) -> (
    int,
    Seq<char>,
)
    decreases lines.len() - j,
{
    if j < 0 || j >= lines.len() {
        (lines.len() as int, acc)
    } else {
        let lt = trim(lines[j]);
        let acc2 = acc + seq![' '];
        match find_char(lt, q) {
            Some(e) => (j + 1, acc2 + lt.take(e)),
            None => quote_walk(lines, j + 1, acc2 + lt, q),
        }
    }
}

pub proof fn lemma_quote_walk_bounds(lines: Seq<Seq<char>>, j: int, acc: Seq<char>, q: char)
    requires
        0 <= j,
    ensures
        quote_walk(lines, j, acc, q).0 <= lines.len(),
        j <= lines.len() ==> j <= quote_walk(lines, j, acc, q).0,
    decreases lines.len() - j,
{
    if 0 <= j < lines.len() {
        let lt = trim(lines[j]);
        if find_char(lt, q) is None {
            lemma_quote_walk_bounds(lines, j + 1, acc + seq![' '] + lt, q);
        }
    }
}

/// Array content taken from a single stretch of text that already contains
/// the closing parenthesis: the text strictly between the first `(` and the
/// last `)`, or everything up to the `)` when there is no `(` at all.
pub open spec fn array_inline(cur: Seq<char>) -> Seq<char> {
    let start = match find_char(cur, '(') {
        Some(i) => i,
        None => 0int,
    };
    match rfind_char(cur, ')') {
        Some(end) => if has_char(cur, '(') {
            cur.subrange(start + 1, end)
        } else {
            cur.take(end)
        },
        None => Seq::empty(),
    }
}

/// A trailing `#` comment stripped from a value's first line, but only when
/// an even number of quote characters precedes the `#`.
pub open spec fn strip_comment(s: Seq<char>) -> Seq<char> {
    match find_char(s, '#') {
        Some(h) => {
            let prefix = s.take(h);
            if (count_char(prefix, '"') + count_char(prefix, '\'')) % 2 == 0 {
                trim(prefix)
            } else {
                s
            }
        },
        None => s,
    }
}

/// Shape and extent of an assignment's value, starting from the remainder
/// `v1` of its first line (already trimmed and comment-stripped): returns the
/// index of the first line not consumed and the raw value.
pub open spec fn extract_value(lines: Seq<Seq<char>>, i: int, v1: Seq<char>) -> (int, Seq<char>) {
    if v1.len() > 0 && v1[0] == '(' {
        if has_char(v1, ')') {
            (i + 1, normalize_ws(array_inline(v1)))
        } else {
            let walked = array_walk(lines, i + 1, v1.drop_first());
            (walked.0, normalize_ws(walked.1))
        }
    } else if v1.len() == 0 && next_starts_paren(lines, i) {
        let cur = trim(lines[i + 1]);
        if has_char(cur, ')') {
            (i + 2, normalize_ws(array_inline(cur)))
        } else {
            let acc0 = if cur.len() > 0 && cur[0] == '(' {
                cur.drop_first()
            } else {
                cur
            };
            let walked = array_walk(lines, i + 2, acc0);
            (walked.0, normalize_ws(walked.1))
        }
    } else if v1.len() > 0 && (v1[0] == '"' || v1[0] == '\'') && !has_char(v1.drop_first(), v1[0]) {
        let walked = quote_walk(lines, i + 1, v1.drop_first(), v1[0]);
        (walked.0, normalize_ws(walked.1))
    } else {
        let raw = if v1.len() >= 2 && ((v1[0] == '"' && v1.last() == '"') || (v1[0] == '\''
            && v1.last() == '\'')) {
            v1.subrange(1, v1.len() - 1)
        } else {
            v1
        };
        (i + 1, raw)
    }
}

/// One step of the document scan at line `i`: the index of the next
/// unconsumed line and the store after the step.
pub open spec fn scan_step(lines: Seq<Seq<char>>, i: int, store: SpecStore) -> (int, SpecStore) {
    let t = trim(lines[i]);
    if t.len() == 0 || t[0] == '#' {
        (i + 1, store)
    } else if is_function_start(lines, i, t) {
        (skip_function(lines, i, 0, t), store)
    } else {
        match find_char(t, '=') {
            None => (i + 1, store),
            Some(e) => {
                let name = trim(t.take(e));
                if name.len() == 0 || !all_word_chars(name) {
                    (i + 1, store)
                } else {
                    let v0 = trim(t.skip(e + 1));
                    if v0.len() == 0 && !next_starts_paren(lines, i) {
                        (i + 1, assoc_update(store, lower(name), Seq::empty()))
                    } else {
                        let v1 = strip_comment(v0);
                        let extracted = extract_value(lines, i, v1);
                        let fin = resolve_self(store, name, extracted.1);
                        (extracted.0, assoc_update(store, lower(name), fin))
                    }
                }
            },
        }
    }
}

pub proof fn lemma_scan_step_advances(lines: Seq<Seq<char>>, i: int, store: SpecStore)
    requires
        0 <= i < lines.len(),
    ensures
        i < scan_step(lines, i, store).0 <= lines.len(),
{
    let t = trim(lines[i]);
    if t.len() == 0 || t[0] == '#' {
    } else if is_function_start(lines, i, t) {
        lemma_skip_function_bounds(lines, i, 0, t);
    } else {
        match find_char(t, '=') {
            None => {},
            Some(e) => {
                let name = trim(t.take(e));
                if !(name.len() == 0 || !all_word_chars(name)) {
                    let v0 = trim(t.skip(e + 1));
                    if !(v0.len() == 0 && !next_starts_paren(lines, i)) {
                        let v1 = strip_comment(v0);
                        lemma_extract_value_advances(lines, i, v1);
                    }
                }
            },
        }
    }
}

pub proof fn lemma_extract_value_advances(lines: Seq<Seq<char>>, i: int, v1: Seq<char>)
    requires
        0 <= i < lines.len(),
    ensures
        i < extract_value(lines, i, v1).0 <= lines.len(),
{
    if v1.len() > 0 && v1[0] == '(' {
        if !has_char(v1, ')') {
            lemma_array_walk_bounds(lines, i + 1, v1.drop_first());
        }
    } else if v1.len() == 0 && next_starts_paren(lines, i) {
        let cur = trim(lines[i + 1]);
        if !has_char(cur, ')') {
            let acc0 = if cur.len() > 0 && cur[0] == '(' {
                cur.drop_first()
            } else {
                cur
            };
            lemma_array_walk_bounds(lines, i + 2, acc0);
        }
    } else if v1.len() > 0 && (v1[0] == '"' || v1[0] == '\'') && !has_char(v1.drop_first(), v1[0]) {
        lemma_quote_walk_bounds(lines, i + 1, v1.drop_first(), v1[0]);
    }
}

/// The store produced by scanning the document from line `i` onward.
pub open spec fn scan_lines(lines: Seq<Seq<char>>, i: int, store: SpecStore) -> SpecStore
    decreases lines.len() - i,
    via scan_lines_decreases
{
    if i < 0 || i >= lines.len() {
        store
    } else {
        let stepped = scan_step(lines, i, store);
        scan_lines(lines, stepped.0, stepped.1)
    }
}

#[via_fn]
proof fn scan_lines_decreases(lines: Seq<Seq<char>>, i: int, store: SpecStore) {
    if 0 <= i < lines.len() {
        lemma_scan_step_advances(lines, i, store);
    }
}

/// The value `acc` with references to every entry of `es` from index `j`
/// onward substituted, in store order, upper-case spelling before
/// lower-case.
pub open spec fn subst_all(es: SpecStore, j: int, acc: Seq<char>) -> Seq<char>
    decreases es.len() - j,
{
    if j < 0 || j >= es.len() {
        acc
    } else {
        let stepped = subst_pair(subst_pair(acc, upper(es[j].0), es[j].1), lower(es[j].0), es[j].1);
        subst_all(es, j + 1, stepped)
    }
}

/// One finishing pass: every value containing `$` has the references to all
/// stored names substituted, all values being read from the snapshot the
/// pass started from.
pub open spec fn resolve_pass(es: SpecStore) -> SpecStore {
    Seq::new(
        es.len(),
        |i: int|
            (
                es[i].0,
                if has_char(es[i].1, '$') {
                    subst_all(es, 0, es[i].1)
                } else {
                    es[i].1
                },
            ),
    )
}

/// The two finishing passes run after a scan.
pub open spec fn resolve_store(es: SpecStore) -> SpecStore {
    resolve_pass(resolve_pass(es))
}

/// The complete extraction: scan every line, then resolve references.
pub open spec fn spec_parse(content: Seq<char>) -> SpecStore {
    resolve_store(scan_lines(lines_of(content), 0, Seq::empty()))
}

/// The character sequences of a vector of lines.
pub open spec fn views_of(ls: Seq<Vec<char>>) -> Seq<Seq<char>> {
    Seq::new(ls.len(), |k: int| ls[k]@)
}

pub proof fn lemma_rfind_char_props(s: Seq<char>, c: char)
    ensures
        match rfind_char(s, c) {
            Some(i) => 0 <= i < s.len() && s[i] == c,
            None => forall|j: int| 0 <= j < s.len() ==> s[j] != c,
        },
    decreases s.len(),
{
    if s.len() > 0 && s.last() != c {
        lemma_rfind_char_props(s.drop_last(), c);
        let rest = s.drop_last();
        match rfind_char(rest, c) {
            Some(_) => {},
            None => {
                assert forall|j: int| 0 <= j < s.len() implies s[j] != c by {
                    if j < s.len() - 1 {
                        assert(s[j] == rest[j]);
                    }
                }
            },
        }
    }
}

/// Whether every character of `v` may appear in a variable name.
fn all_word_vec(v: &Vec<char>) -> (r: bool)
    ensures
        r == all_word_chars(v@),
{
    let mut j: usize = 0;
    while j < v.len()
        invariant
            j <= v@.len(),
            forall|m: int| 0 <= m < j ==> is_word_char(v@[m]),
        decreases v.len() - j,
    {
        if !is_word(v[j]) {
            assert(!is_word_char(v@[j as int]));
            return false;
        }
        j = j + 1;
    }
    true
}

fn strip_comment_vec(v: &Vec<char>) -> (r: Vec<char>)
    ensures
        r@ == strip_comment(v@),
{
    match find_char_vec(v, '#') {
        Some(h) => {
            proof {
                lemma_find_char_props(v@, '#');
            }
            let prefix = sub_vec(v, 0, h);
            assert(prefix@ =~= v@.take(h as int));
            let dq = count_char_vec(&prefix, '"');
            let sq = count_char_vec(&prefix, '\'');
            if (dq as u128 + sq as u128) % 2 == 0 {
                trim_vec(&prefix)
            } else {
                sub_vec(v, 0, v.len())
            }
        },
        None => sub_vec(v, 0, v.len()),
    }
}

fn array_inline_vec(cur: &Vec<char>) -> (r: Vec<char>)
    requires
        cur@.len() > 0,
        cur@[0] == '(',
        has_char(cur@, ')'),
    ensures
        r@ == array_inline(cur@),
{
    let start: usize = match find_char_vec(cur, '(') {
        Some(i) => i,
        None => 0,
    };
    proof {
        lemma_find_char_props(cur@, '(');
        lemma_rfind_char_props(cur@, ')');
    }
    let end: usize = match rfind_char_vec(cur, ')') {
        Some(e) => e,
        None => {
            proof {
                lemma_find_char_props(cur@, ')');
            }
            0
        },
    };
    if has_char_vec(cur, '(') {
        assert(find_char(cur@, '(') == Some(0int));
        assert(cur@[end as int] == ')');
        assert(end >= 1);
        sub_vec(cur, start + 1, end)
    } else {
        assert(find_char(cur@, '(') is Some) by {
            assert(cur@[0] == '(');
        }
        sub_vec(cur, 0, end)
    }
}

fn next_brace_exec(lines: &Vec<Vec<char>>, i: usize) -> (r: bool)
    requires
        i < lines@.len(),
    ensures
        r == next_starts_brace(views_of(lines@), i as int),
{
    let ghost vs = views_of(lines@);
    let n = lines.len();
    if i < n && n - i > 1 {
        let nt = trim_vec(&lines[i + 1]);
        assert(nt@ == trim(vs[i as int + 1]));
        if nt.len() > 0 && nt[0] == '{' {
            assert(nt@.take(1) =~= seq!['{']);
            true
        } else {
            proof {
                if starts_with(nt@, seq!['{']) {
                    assert(nt@.take(1)[0] == '{');
                }
            }
            false
        }
    } else {
        false
    }
}

fn next_paren_exec(lines: &Vec<Vec<char>>, i: usize) -> (r: bool)
    requires
        i < lines@.len(),
    ensures
        r == next_starts_paren(views_of(lines@), i as int),
{
    let ghost vs = views_of(lines@);
    let n = lines.len();
    if i < n && n - i > 1 {
        let nt = trim_vec(&lines[i + 1]);
        assert(nt@ == trim(vs[i as int + 1]));
        if nt.len() > 0 && nt[0] == '(' {
            assert(nt@.take(1) =~= seq!['(']);
            true
        } else {
            proof {
                if starts_with(nt@, seq!['(']) {
                    assert(nt@.take(1)[0] == '(');
                }
            }
            false
        }
    } else {
        false
    }
}

fn skip_function_exec(lines: &Vec<Vec<char>>, i: usize, t: &Vec<char>) -> (r: usize)
    requires
        i < lines@.len(),
        t@ == trim(views_of(lines@)[i as int]),
        sum_lens(views_of(lines@)) <= usize::MAX,
    ensures
        r as int == skip_function(views_of(lines@), i as int, 0, t@),
        i < r <= lines@.len(),
{
    let ghost vs = views_of(lines@);
    proof {
        lemma_skip_function_bounds(vs, i as int, 0, t@);
        assert(vs.subrange(i as int, i as int).len() == 0);
        assert(sum_lens(vs.subrange(i as int, i as int)) == 0);
    }
    let mut j: usize = i;
    let mut cur: Vec<char> = sub_vec(t, 0, t.len());
    assert(cur@ =~= t@);
    let mut cnt: i128 = 0;
    loop
        invariant
            i <= j < lines@.len(),
            vs == views_of(lines@),
            cur@ == trim(vs[j as int]),
            sum_lens(vs) <= usize::MAX,
            skip_function(vs, i as int, 0, t@) == skip_function(vs, j as int, cnt as int, cur@),
            i < skip_function(vs, i as int, 0, t@) <= lines@.len(),
            -(sum_lens(vs.subrange(i as int, j as int)) as int) <= cnt as int <= sum_lens(
                vs.subrange(i as int, j as int),
            ) as int,
        decreases lines@.len() - j,
    {
        let opens = count_char_vec(&cur, '{');
        let closes = count_char_vec(&cur, '}');
        proof {
            lemma_count_char_le_len(cur@, '{');
            lemma_count_char_le_len(cur@, '}');
            lemma_trim_le_len(vs[j as int]);
            assert(vs.subrange(i as int, j as int + 1) =~= vs.subrange(i as int, j as int) + seq![
                vs[j as int],
            ]);
            crate::text::lemma_sum_lens_add(vs.subrange(i as int, j as int), seq![vs[j as int]]);
            assert(sum_lens(Seq::<Seq<char>>::empty()) == 0);
            assert(seq![vs[j as int]].drop_first() =~= Seq::<Seq<char>>::empty());
            assert(sum_lens(seq![vs[j as int]]) == vs[j as int].len());
            lemma_sum_lens_sub(vs, i as int, j as int + 1);
        }
        let cnt2: i128 = cnt + opens as i128 - closes as i128;
        let n = lines.len();
        assert(j < n);
        if cnt2 <= 0 && has_char_vec(&cur, '}') {
            assert(skip_function(vs, j as int, cnt as int, cur@) == j + 1);
            return j + 1;
        }
        if n - j > 1 {
            assert(skip_function(vs, j as int, cnt as int, cur@) == skip_function(
                vs,
                j as int + 1,
                cnt2 as int,
                trim(vs[j as int + 1]),
            ));
            j = j + 1;
            cur = trim_vec(&lines[j]);
            cnt = cnt2;
        } else {
            assert(skip_function(vs, j as int, cnt as int, cur@) == vs.len());
            return lines.len();
        }
    }
}

fn array_walk_exec(lines: &Vec<Vec<char>>, start: usize, acc0: Vec<char>) -> (r: (usize, Vec<
    char,
>))
    ensures
        r.0 as int == array_walk(views_of(lines@), start as int, acc0@).0,
        r.1@ == array_walk(views_of(lines@), start as int, acc0@).1,
        r.0 <= lines@.len(),
{
    let ghost vs = views_of(lines@);
    let mut j: usize = start;
    let mut acc = acc0;
    while j < lines.len()
        invariant
            start <= j,
            vs == views_of(lines@),
            array_walk(vs, start as int, acc0@) == array_walk(vs, j as int, acc@),
        decreases lines@.len() - j,
    {
        let lt = trim_vec(&lines[j]);
        assert(lt@ == trim(vs[j as int]));
        let ghost acc_old = acc@;
        match find_char_vec(&lt, ')') {
            Some(e) => {
                proof {
                    lemma_find_char_props(lt@, ')');
                }
                acc.push(' ');
                let head = sub_vec(&lt, 0, e);
                extend_vec(&mut acc, &head);
                proof {
                    assert(head@ =~= lt@.take(e as int));
                    assert(acc@ =~= acc_old + seq![' '] + lt@.take(e as int));
                    assert(array_walk(vs, j as int, acc_old) == (j + 1, acc@));
                }
                return (j + 1, acc);
            },
            None => {
                acc.push(' ');
                extend_vec(&mut acc, &lt);
                proof {
                    assert(acc@ =~= acc_old + seq![' '] + lt@);
                    assert(array_walk(vs, j as int, acc_old) == array_walk(
                        vs,
                        j as int + 1,
                        acc@,
                    ));
                }
                j = j + 1;
            },
        }
    }
    assert(array_walk(vs, j as int, acc@) == (vs.len() as int, acc@));
    (lines.len(), acc)
}

fn quote_walk_exec(lines: &Vec<Vec<char>>, start: usize, acc0: Vec<char>, q: char) -> (r: (
    usize,
    Vec<char>,
))
    ensures
        r.0 as int == quote_walk(views_of(lines@), start as int, acc0@, q).0,
        r.1@ == quote_walk(views_of(lines@), start as int, acc0@, q).1,
        r.0 <= lines@.len(),
{
    let ghost vs = views_of(lines@);
    let mut j: usize = start;
    let mut acc = acc0;
    while j < lines.len()
        invariant
            start <= j,
            vs == views_of(lines@),
            quote_walk(vs, start as int, acc0@, q) == quote_walk(vs, j as int, acc@, q),
        decreases lines@.len() - j,
    {
        let lt = trim_vec(&lines[j]);
        assert(lt@ == trim(vs[j as int]));
        let ghost acc_old = acc@;
        match find_char_vec(&lt, q) {
            Some(e) => {
                proof {
                    lemma_find_char_props(lt@, q);
                }
                acc.push(' ');
                let head = sub_vec(&lt, 0, e);
                extend_vec(&mut acc, &head);
                proof {
                    assert(head@ =~= lt@.take(e as int));
                    assert(acc@ =~= (acc_old + seq![' ']) + lt@.take(e as int));
                    assert(quote_walk(vs, j as int, acc_old, q) == (j + 1, acc@));
                }
                return (j + 1, acc);
            },
            None => {
                acc.push(' ');
                extend_vec(&mut acc, &lt);
                proof {
                    assert(acc@ =~= (acc_old + seq![' ']) + lt@);
                    assert(quote_walk(vs, j as int, acc_old, q) == quote_walk(
                        vs,
                        j as int + 1,
                        acc@,
                        q,
                    ));
                }
                j = j + 1;
            },
        }
    }
    assert(quote_walk(vs, j as int, acc@, q) == (vs.len() as int, acc@));
    (lines.len(), acc)
}

fn subst_pair_exec(s: &Vec<char>, name: &Vec<char>, rep: &Vec<char>) -> (r: Vec<char>)
    ensures
        r@ == subst_pair(s@, name@, rep@),
{
    let mut bp: Vec<char> = Vec::new();
    bp.push('$');
    bp.push('{');
    extend_vec(&mut bp, name);
    bp.push('}');
    assert(bp@ =~= brace_pat(name@));
    let mut ap: Vec<char> = Vec::new();
    ap.push('$');
    extend_vec(&mut ap, name);
    assert(ap@ =~= bare_pat(name@));
    let r1 = replace_all_vec(s, &bp, rep);
    replace_all_vec(&r1, &ap, rep)
}

fn extract_value_exec(lines: &Vec<Vec<char>>, i: usize, v1: &Vec<char>) -> (r: (usize, Vec<char>))
    requires
        i < lines@.len(),
    ensures
        r.0 as int == extract_value(views_of(lines@), i as int, v1@).0,
        r.1@ == extract_value(views_of(lines@), i as int, v1@).1,
        i < r.0 <= lines@.len(),
{
    let ghost vs = views_of(lines@);
    let n = lines.len();
    assert(i < n);
    proof {
        lemma_extract_value_advances(vs, i as int, v1@);
    }
    if v1.len() > 0 && v1[0] == '(' {
        if has_char_vec(v1, ')') {
            let inner = array_inline_vec(v1);
            (i + 1, normalize_ws_vec(&inner))
        } else {
            let acc0 = sub_vec(v1, 1, v1.len());
            assert(acc0@ =~= v1@.drop_first());
            let walked = array_walk_exec(lines, i + 1, acc0);
            let nor = normalize_ws_vec(&walked.1);
            (walked.0, nor)
        }
    } else if v1.len() == 0 && next_paren_exec(lines, i) {
        let cur = trim_vec(&lines[i + 1]);
        assert(cur@ == trim(vs[i as int + 1]));
        assert(cur@.len() > 0 && cur@[0] == '(') by {
            assert(starts_with(cur@, seq!['(']));
            assert(cur@.take(1)[0] == '(');
        }
        if has_char_vec(&cur, ')') {
            let inner = array_inline_vec(&cur);
            (i + 2, normalize_ws_vec(&inner))
        } else {
            let acc0 = if cur.len() > 0 && cur[0] == '(' {
                let a = sub_vec(&cur, 1, cur.len());
                assert(a@ =~= cur@.drop_first());
                a
            } else {
                cur
            };
            let walked = array_walk_exec(lines, i + 2, acc0);
            let nor = normalize_ws_vec(&walked.1);
            (walked.0, nor)
        }
    } else {
        let first_quote = v1.len() > 0 && (v1[0] == '"' || v1[0] == '\'');
        if first_quote {
            let q = v1[0];
            let tail = sub_vec(v1, 1, v1.len());
            assert(tail@ =~= v1@.drop_first());
            if !has_char_vec(&tail, q) {
                let walked = quote_walk_exec(lines, i + 1, tail, q);
                let nor = normalize_ws_vec(&walked.1);
                return (walked.0, nor);
            }
        }
        let raw = if v1.len() >= 2 && ((v1[0] == '"' && v1[v1.len() - 1] == '"') || (v1[0] == '\''
            && v1[v1.len() - 1] == '\'')) {
            let inner = sub_vec(v1, 1, v1.len() - 1);
            assert(inner@ =~= v1@.subrange(1, v1@.len() - 1));
            inner
        } else {
            sub_vec(v1, 0, v1.len())
        };
        (i + 1, raw)
    }
}

/// The extracted data of an ebuild document: a case-insensitive mapping from
/// variable name (stored lower-case) to its resolved value.
pub struct EbuildData {
    vars: Vec<(String, String)>,
}

/// The store content of a vector of name/value pairs.
pub open spec fn pairs_view(vs: Seq<(String, String)>) -> SpecStore {
    Seq::new(vs.len(), |i: int| (vs[i].0@, vs[i].1@))
}

impl View for EbuildData {
    type V = SpecStore;

    closed spec fn view(&self) -> SpecStore {
        pairs_view(self.vars@)
    }
}

impl EbuildData {
    /// An empty store.
    pub fn new() -> (r: Self)
        ensures
            r@ == Seq::<(Seq<char>, Seq<char>)>::empty(),
    {
        let r = EbuildData { vars: Vec::new() };
        proof {
            assert(r@ =~= Seq::<(Seq<char>, Seq<char>)>::empty());
        }
        r
    }

    /// Adds a variable; the name is stored in lower case, overwriting any
    /// earlier binding of the same name.
    pub fn insert(&mut self, name: String, value: String)
        ensures
            final(self)@ == assoc_update(old(self)@, lower(name@), value@),
    {
        let nv = to_char_vec(name.as_str());
        let key = chars_to_string(&lower_vec(&nv));
        let ghost es = self@;
        let ghost k = lower(name@);
        let mut j: usize = 0;
        let n = self.vars.len();
        while j < n
            invariant
                j <= n,
                n == self.vars@.len(),
                es == pairs_view(self.vars@),
                es == old(self)@,
                k == lower(name@),
                key@ == k,
                forall|m: int| 0 <= m < j ==> es[m].0 != k,
            decreases n - j,
        {
            if self.vars[j].0 == key {
                proof {
                    assert(es[j as int].0 == k);
                    lemma_assoc_find_unique(es, k, j as int);
                }
                let mut out: Vec<(String, String)> = Vec::new();
                let mut m: usize = 0;
                while m < n
                    invariant
                        m <= n,
                        j < n,
                        n == self.vars@.len(),
                        es == pairs_view(self.vars@),
                        key@ == k,
                        out@.len() == m,
                        forall|t: int|
                            0 <= t < m && t != j ==> (out@[t].0@, out@[t].1@) == es[t],
                        forall|t: int|
                            0 <= t < m && t == j ==> out@[t].0@ == k && out@[t].1@ == value@,
                    decreases n - m,
                {
                    if m == j {
                        out.push((key.clone(), value.clone()));
                    } else {
                        let pair = &self.vars[m];
                        out.push((pair.0.clone(), pair.1.clone()));
                    }
                    m = m + 1;
                }
                self.vars = out;
                proof {
                    assert(pairs_view(self.vars@) =~= es.update(j as int, (k, value@)));
                    assert(assoc_update(es, k, value@) == es.update(j as int, (k, value@)));
                    assert(self@ == assoc_update(es, k, value@));
                }
                return ;
            }
            proof {
                assert(es[j as int].0 == self.vars@[j as int].0@);
            }
            j = j + 1;
        }
        proof {
            lemma_assoc_find_props(es, k);
            if assoc_find(es, k) is Some {
                let w = assoc_find(es, k)->Some_0;
                assert(es[w].0 == k);
            }
            assert(assoc_find(es, k) is None);
        }
        self.vars.push((key, value));
        proof {
            assert(pairs_view(self.vars@) =~= es.push((k, value@)));
        }
    }

    /// The value of a variable, looked up case-insensitively; absent means
    /// the variable was never assigned.
    pub fn get(&self, name: &str) -> (r: Option<&String>)
        ensures
            match r {
                Some(v) => assoc_lookup(self@, lower(name@)) == Some(v@),
                None => assoc_lookup(self@, lower(name@)) is None,
            },
    {
        let nv = to_char_vec(name);
        let key = chars_to_string(&lower_vec(&nv));
        let ghost es = self@;
        let ghost k = lower(name@);
        let mut j: usize = 0;
        let n = self.vars.len();
        while j < n
            invariant
                j <= n,
                n == self.vars@.len(),
                es == pairs_view(self.vars@),
                es == self@,
                k == lower(name@),
                key@ == k,
                forall|m: int| 0 <= m < j ==> es[m].0 != k,
            decreases n - j,
        {
            if self.vars[j].0 == key {
                proof {
                    assert(es[j as int].0 == k);
                    lemma_assoc_find_unique(es, k, j as int);
                    assert(assoc_lookup(es, k) == Some(es[j as int].1));
                    assert(es[j as int].1 == self.vars@[j as int].1@);
                }
                return Some(&self.vars[j].1);
            }
            proof {
                assert(es[j as int].0 == self.vars@[j as int].0@);
            }
            j = j + 1;
        }
        proof {
            lemma_assoc_find_props(es, k);
            if assoc_find(es, k) is Some {
                let w = assoc_find(es, k)->Some_0;
                assert(es[w].0 == k);
            }
        }
        None
    }

    /// All stored variables, as name/value pairs in insertion order.
    pub fn variables(&self) -> (r: &Vec<(String, String)>)
        ensures
            pairs_view(r@) == self@,
    {
        &self.vars
    }

    /// One finishing pass over the store.
    fn do_pass(&mut self)
        ensures
            final(self)@ == resolve_pass(old(self)@),
    {
        let ghost es = self@;
        let n = self.vars.len();
        let mut out: Vec<(String, String)> = Vec::new();
        let mut idx: usize = 0;
        while idx < n
            invariant
                idx <= n,
                n == self.vars@.len(),
                es == pairs_view(self.vars@),
                es == old(self)@,
                out@.len() == idx,
                forall|t2: int|
                    0 <= t2 < idx ==> (out@[t2].0@, out@[t2].1@) == resolve_pass(es)[t2],
            decreases n - idx,
        {
            let kstr = self.vars[idx].0.clone();
            let vstr = self.vars[idx].1.clone();
            proof {
                assert(kstr@ == es[idx as int].0);
                assert(vstr@ == es[idx as int].1);
            }
            let cv = to_char_vec(vstr.as_str());
            let ghost cv0 = cv@;
            if has_char_vec(&cv, '$') {
                let mut acc = cv;
                let mut j: usize = 0;
                while j < n
                    invariant
                        j <= n,
                        idx < n,
                        n == self.vars@.len(),
                        es == pairs_view(self.vars@),
                        cv0 == es[idx as int].1,
                        has_char(cv0, '$'),
                        kstr@ == es[idx as int].0,
                        subst_all(es, 0, cv0) == subst_all(es, j as int, acc@),
                    decreases n - j,
                {
                    let namev = to_char_vec(self.vars[j].0.as_str());
                    let repv = to_char_vec(self.vars[j].1.as_str());
                    proof {
                        assert(namev@ == es[j as int].0);
                        assert(repv@ == es[j as int].1);
                    }
                    let up = upper_vec(&namev);
                    let low = lower_vec(&namev);
                    let s1 = subst_pair_exec(&acc, &up, &repv);
                    let s2 = subst_pair_exec(&s1, &low, &repv);
                    proof {
                        assert(subst_all(es, j as int, acc@) == subst_all(
                            es,
                            j as int + 1,
                            s2@,
                        ));
                    }
                    acc = s2;
                    j = j + 1;
                }
                proof {
                    assert(subst_all(es, j as int, acc@) == acc@);
                    assert(acc@ == subst_all(es, 0, es[idx as int].1));
                    assert(resolve_pass(es)[idx as int] == (
                        es[idx as int].0,
                        subst_all(es, 0, es[idx as int].1),
                    ));
                }
                let rstr = chars_to_string(&acc);
                out.push((kstr, rstr));
            } else {
                proof {
                    assert(resolve_pass(es)[idx as int] == (es[idx as int].0, es[idx as int].1));
                }
                out.push((kstr, vstr));
            }
            idx = idx + 1;
        }
        self.vars = out;
        proof {
            assert(pairs_view(self.vars@) =~= resolve_pass(es));
        }
    }

    /// Two finishing passes: every stored value has references to other
    /// stored variables substituted, the second pass resolving two-level
    /// chains; deeper chains stay as literal text.
    pub fn resolve_variables(&mut self)
        ensures
            final(self)@ == resolve_store(old(self)@),
    {
        let ghost es0 = self@;
        self.do_pass();
        proof {
            assert(self@ == resolve_pass(es0));
        }
        self.do_pass();
        proof {
            assert(self@ == resolve_pass(resolve_pass(es0)));
        }
    }

    /// Parses the content of an ebuild document. This is not a shell parser:
    /// it extracts top-level variable assignments, best-effort, and never
    /// fails, however malformed the content.
    pub fn parse(content: &str) -> (r: Self)
        ensures
            r@ == spec_parse(content@),
    {
        let cv = to_char_vec(content);
        let total = cv.len();
        let lines = lines_vec(&cv);
        let ghost vs = views_of(lines@);
        proof {
            assert(cv@ == content@);
            lemma_lines_of_total_len(content@);
            assert(vs =~= lines_of(content@));
            assert(sum_lens(vs) <= total);
        }
        let kw = to_char_vec("function ");
        let pp = to_char_vec("()");
        proof {
            reveal_strlit("function ");
            reveal_strlit("()");
            assert(kw@ =~= fn_kw());
            assert(pp@ =~= seq!['(', ')']);
        }
        let mut data = EbuildData::new();
        let mut i: usize = 0;
        proof {
            assert(scan_lines(vs, 0, Seq::empty()) == scan_lines(vs, i as int, data@));
        }
        while i < lines.len()
            invariant
                i <= lines@.len(),
                vs == views_of(lines@),
                vs == lines_of(content@),
                sum_lens(vs) <= usize::MAX,
                kw@ == fn_kw(),
                pp@ == seq!['(', ')'],
                scan_lines(vs, 0, Seq::empty()) == scan_lines(vs, i as int, data@),
            decreases lines@.len() - i,
        {
            let ghost st = data@;
            let n = lines.len();
            let t = trim_vec(&lines[i]);
            proof {
                assert(t@ == trim(vs[i as int]));
            }
            let mut next: usize = i + 1;
            if t.len() == 0 || t[0] == '#' {
                proof {
                    assert(scan_step(vs, i as int, st) == (i as int + 1, st));
                }
            } else {
                let c1 = contains_sub_vec(&t, &pp);
                let hb = has_char_vec(&t, '{');
                let sw = starts_with_vec(&t, &kw);
                let nb = next_brace_exec(&lines, i);
                let isfn = (c1 && (hb || nb)) || (sw && (hb || nb));
                proof {
                    assert(isfn == is_function_start(vs, i as int, t@));
                }
                if isfn {
                    next = skip_function_exec(&lines, i, &t);
                    proof {
                        assert(scan_step(vs, i as int, st) == (
                            skip_function(vs, i as int, 0, t@),
                            st,
                        ));
                    }
                } else {
                    match find_char_vec(&t, '=') {
                        None => {
                            proof {
                                assert(scan_step(vs, i as int, st) == (i as int + 1, st));
                            }
                        },
                        Some(e) => {
                            proof {
                                lemma_find_char_props(t@, '=');
                            }
                            let head = sub_vec(&t, 0, e);
                            let name = trim_vec(&head);
                            proof {
                                assert(head@ =~= t@.take(e as int));
                                assert(name@ == trim(t@.take(e as int)));
                            }
                            if name.len() == 0 || !all_word_vec(&name) {
                                proof {
                                    assert(scan_step(vs, i as int, st) == (i as int + 1, st));
                                }
                            } else {
                                let tail0 = sub_vec(&t, e + 1, t.len());
                                let v0 = trim_vec(&tail0);
                                proof {
                                    assert(tail0@ =~= t@.skip(e as int + 1));
                                    assert(v0@ == trim(t@.skip(e as int + 1)));
                                }
                                let np = next_paren_exec(&lines, i);
                                if v0.len() == 0 && !np {
                                    let name_str = chars_to_string(&name);
                                    data.insert(name_str, String::new());
                                    proof {
                                        assert(scan_step(vs, i as int, st) == (
                                            i as int + 1,
                                            assoc_update(st, lower(name@), Seq::empty()),
                                        ));
                                    }
                                } else {
                                    let v1 = strip_comment_vec(&v0);
                                    let ext = extract_value_exec(&lines, i, &v1);
                                    next = ext.0;
                                    let raw = ext.1;
                                    let ghost raw0 = raw@;
                                    let name_str = chars_to_string(&name);
                                    let fin: Vec<char> = match data.get(name_str.as_str()) {
                                        Some(prior) => {
                                            let pv = to_char_vec(prior.as_str());
                                            let up = upper_vec(&name);
                                            let low = lower_vec(&name);
                                            let s1 = subst_pair_exec(&raw, &up, &pv);
                                            subst_pair_exec(&s1, &low, &pv)
                                        },
                                        None => raw,
                                    };
                                    proof {
                                        assert(fin@ == resolve_self(st, name@, raw0));
                                    }
                                    let fin_str = chars_to_string(&fin);
                                    data.insert(name_str, fin_str);
                                    proof {
                                        assert(scan_step(vs, i as int, st) == (
                                            next as int,
                                            assoc_update(st, lower(name@), fin@),
                                        ));
                                    }
                                }
                            }
                        },
                    }
                }
            }
            proof {
                assert(scan_step(vs, i as int, st) == (next as int, data@));
                assert(scan_lines(vs, i as int, st) == scan_lines(vs, next as int, data@));
                lemma_scan_step_advances(vs, i as int, st);
            }
            i = next;
        }
        proof {
            assert(scan_lines(vs, i as int, data@) == data@);
        }
        data.resolve_variables();
        proof {
            assert(data@ == resolve_store(scan_lines(lines_of(content@), 0, Seq::empty())));
        }
        data
    }

    /// The value of a variable, or the empty string when it is absent.
    pub fn index(&self, name: &str) -> (r: String)
        ensures
            match assoc_lookup(self@, lower(name@)) {
                Some(v) => r@ == v,
                None => r@ == Seq::<char>::empty(),
            },
    {
        match self.get(name) {
            Some(v) => v.clone(),
            None => String::new(),
        }
    }
}

/// Looking a name up is insensitive to its case: after binding `name`, a
/// query succeeds exactly when its lower-cased spelling equals the
/// lower-cased `name`, and then returns the bound value.
pub proof fn lemma_lookup_case_insensitive(
    es: SpecStore,
    name: Seq<char>,
    query: Seq<char>,
    v: Seq<char>,
)
    ensures
        lower(query) == lower(name) ==> assoc_lookup(assoc_update(es, lower(name), v), lower(query))
            == Some(v),
        lower(query) != lower(name) ==> assoc_lookup(assoc_update(es, lower(name), v), lower(query))
            == assoc_lookup(es, lower(query)),
{
    let k = lower(name);
    let q = lower(query);
    let es2 = assoc_update(es, k, v);
    lemma_assoc_find_props(es, k);
    lemma_assoc_find_props(es, q);
    match assoc_find(es, k) {
        Some(i) => {
            assert(es2 == es.update(i, (k, v)));
            if q == k {
                lemma_assoc_find_unique(es2, q, i);
            } else {
                match assoc_find(es, q) {
                    Some(w) => {
                        assert(es2[w].0 == q);
                        assert(forall|j: int| 0 <= j < w ==> es2[j].0 != q);
                        lemma_assoc_find_unique(es2, q, w);
                        assert(es2[w].1 == es[w].1);
                    },
                    None => {
                        lemma_assoc_find_props(es2, q);
                        if assoc_find(es2, q) is Some {
                            let w = assoc_find(es2, q)->Some_0;
                            assert(es2[w].0 == q);
                            assert(es[w].0 != q);
                        }
                    },
                }
            }
        },
        None => {
            assert(es2 == es.push((k, v)));
            if q == k {
                lemma_assoc_find_unique(es2, q, es.len() as int);
            } else {
                match assoc_find(es, q) {
                    Some(w) => {
                        assert(es2[w].0 == q);
                        assert(forall|j: int| 0 <= j < w ==> es2[j].0 != q);
                        lemma_assoc_find_unique(es2, q, w);
                        assert(es2[w].1 == es[w].1);
                    },
                    None => {
                        lemma_assoc_find_props(es2, q);
                        if assoc_find(es2, q) is Some {
                            let w = assoc_find(es2, q)->Some_0;
                            assert(es2[w].0 == q);
                            if w < es.len() {
                                assert(es[w].0 != q);
                            }
                        }
                    },
                }
            }
        },
    }
}

/// A well-formed store key: non-empty, word characters only, lower-case.
pub open spec fn wf_key(k: Seq<char>) -> bool {
    k.len() > 0 && all_word_chars(k) && lower(k) == k
}

/// The store invariant: every key is well-formed.
pub open spec fn wf_store(es: SpecStore) -> bool {
    forall|i: int| 0 <= i < es.len() ==> wf_key(#[trigger] es[i].0)
}

proof fn lemma_lower_char_word(c: char)
    requires
        is_word_char(c),
    ensures
        is_word_char(lower_char(c)),
{
    if 65 <= c as u32 && c as u32 <= 90 {
        let d = ((c as u8) + 32) as char;
        assert(d as u32 == c as u32 + 32);
    }
}

proof fn lemma_lower_wf_key(name: Seq<char>)
    requires
        name.len() > 0,
        all_word_chars(name),
    ensures
        wf_key(lower(name)),
{
    assert forall|i: int| 0 <= i < lower(name).len() implies is_word_char(lower(name)[i]) by {
        lemma_lower_char_word(name[i]);
    }
    lemma_lower_idempotent(name);
}

proof fn lemma_assoc_update_wf(es: SpecStore, k: Seq<char>, v: Seq<char>)
    requires
        wf_store(es),
        wf_key(k),
    ensures
        wf_store(assoc_update(es, k, v)),
{
    lemma_assoc_find_props(es, k);
    let es2 = assoc_update(es, k, v);
    assert forall|i: int| 0 <= i < es2.len() implies wf_key(es2[i].0) by {
        match assoc_find(es, k) {
            Some(w) => {
                if i != w {
                    assert(es2[i].0 == es[i].0);
                }
            },
            None => {
                if i < es.len() {
                    assert(es2[i].0 == es[i].0);
                }
            },
        }
    }
}

proof fn lemma_scan_step_wf(lines: Seq<Seq<char>>, i: int, store: SpecStore)
    requires
        wf_store(store),
    ensures
        wf_store(scan_step(lines, i, store).1),
{
    let t = trim(lines[i]);
    if !(t.len() == 0 || t[0] == '#') && !is_function_start(lines, i, t) {
        match find_char(t, '=') {
            None => {},
            Some(e) => {
                let name = trim(t.take(e));
                if !(name.len() == 0 || !all_word_chars(name)) {
                    lemma_lower_wf_key(name);
                    let v0 = trim(t.skip(e + 1));
                    if v0.len() == 0 && !next_starts_paren(lines, i) {
                        lemma_assoc_update_wf(store, lower(name), Seq::empty());
                    } else {
                        let v1 = strip_comment(v0);
                        let extracted = extract_value(lines, i, v1);
                        lemma_assoc_update_wf(
                            store,
                            lower(name),
                            resolve_self(store, name, extracted.1),
                        );
                    }
                }
            },
        }
    }
}

proof fn lemma_scan_lines_wf(lines: Seq<Seq<char>>, i: int, store: SpecStore)
    requires
        wf_store(store),
    ensures
        wf_store(scan_lines(lines, i, store)),
    decreases lines.len() - i,
{
    if 0 <= i < lines.len() {
        let stepped = scan_step(lines, i, store);
        lemma_scan_step_wf(lines, i, store);
        lemma_scan_step_advances(lines, i, store);
        lemma_scan_lines_wf(lines, stepped.0, stepped.1);
    }
}

/// The store invariant of an extraction result: every key of a parsed
/// document is non-empty, consists of word characters only, and is stored
/// lower-case — a malformed name never produces an entry.
pub proof fn lemma_parse_keys_wf(content: Seq<char>)
    ensures
        wf_store(spec_parse(content)),
{
    let empty_store = Seq::<(Seq<char>, Seq<char>)>::empty();
    lemma_scan_lines_wf(lines_of(content), 0, empty_store);
    let scanned = scan_lines(lines_of(content), 0, empty_store);
    let p1 = resolve_pass(scanned);
    assert forall|i: int| 0 <= i < p1.len() implies wf_key(p1[i].0) by {
        assert(p1[i].0 == scanned[i].0);
    }
    let p2 = resolve_pass(p1);
    assert forall|i: int| 0 <= i < p2.len() implies wf_key(p2[i].0) by {
        assert(p2[i].0 == p1[i].0);
    }
}

/// Round trip for plain scalar assignments: a one-line document `NAME=value`
/// whose value contains none of the characters the scanner treats specially
/// (`$`, `#`, quotes, parentheses, a newline, nor surrounding whitespace)
/// parses to exactly that value, byte for byte, under the lower-cased name.
pub proof fn lemma_scalar_round_trip(name: Seq<char>, value: Seq<char>)
    requires
        name.len() > 0,
        all_word_chars(name),
        value.len() > 0,
        !is_space_char(value[0]),
        !is_space_char(value.last()),
        !has_char(value, '$'),
        !has_char(value, '#'),
        !has_char(value, '\n'),
        !has_char(value, '('),
        !has_char(value, ')'),
        value[0] != '"',
        value[0] != '\'',
    ensures
        spec_parse(name + seq!['='] + value) == seq![(lower(name), value)],
{
    let content = name + seq!['='] + value;
    let nl = name.len() as int;
    let vl = value.len() as int;
    assert(content.len() == nl + 1 + vl);
    assert(forall|j: int| 0 <= j < nl ==> content[j] == name[j]);
    assert(content[nl] == '=');
    assert(forall|j: int| 0 <= j < vl ==> content[nl + 1 + j] == value[j]);
    assert forall|j: int| 0 <= j < nl implies is_word_char(content[j]) by {
        assert(name[j] == content[j]);
    }
    lemma_find_char_props(value, '$');
    lemma_find_char_props(value, '#');
    lemma_find_char_props(value, '\n');
    lemma_find_char_props(value, '(');
    lemma_find_char_props(value, ')');

    // one line: the content holds no newline
    assert forall|j: int| 0 <= j < content.len() implies content[j] != '\n' by {
        if j < nl {
            lemma_word_char_plain(content[j]);
        } else if j > nl {
            assert(content[j] == value[j - nl - 1]);
        }
    }
    lemma_find_char_props(content, '\n');
    if find_char(content, '\n') is Some {
        let w = find_char(content, '\n')->Some_0;
        assert(content[w] != '\n');
    }
    assert(lines_of(content) == seq![content]);
    let ls = seq![content];

    // the line is already trimmed
    lemma_word_char_plain(content[0]);
    assert(content.last() == value.last());
    lemma_trim_noop(content);
    let t = content;
    assert(trim(ls[0]) == t);

    // neither blank nor a comment
    assert(t[0] != '#');

    // no parenthesis anywhere in the content
    assert forall|j: int| 0 <= j < content.len() implies content[j] != '(' && content[j] != ')' by {
        if j < nl {
            lemma_word_char_plain(content[j]);
        } else if j > nl {
            assert(content[j] == value[j - nl - 1]);
        }
    }

    // not a function start
    if contains_sub(t, seq!['(', ')']) {
        assert(seq!['(', ')'][0] == '(');
        lemma_contains_implies_has(t, seq!['(', ')']);
        lemma_find_char_props(t, '(');
        let w = find_char(t, '(')->Some_0;
        assert(t[w] != '(');
    }
    if starts_with(t, fn_kw()) {
        assert(t.take(9)[8] == fn_kw()[8]);
        assert(fn_kw()[8] == ' ');
        assert(t[8] == ' ');
        if nl >= 9 {
            lemma_word_char_plain(content[8]);
        } else if nl == 8 {
            assert(t[8] == '=');
        } else {
            assert(t.take(9)[nl] == fn_kw()[nl]);
            assert(fn_kw()[1] == 'u' && fn_kw()[2] == 'n' && fn_kw()[3] == 'c' && fn_kw()[4] == 't'
                && fn_kw()[5] == 'i' && fn_kw()[6] == 'o' && fn_kw()[7] == 'n');
            assert(t[nl] == '=');
            assert('u' as u32 == 117 && 'n' as u32 == 110 && 'c' as u32 == 99 && 't' as u32 == 116
                && 'i' as u32 == 105 && 'o' as u32 == 111 && '=' as u32 == 61);
        }
    }
    assert(!is_function_start(ls, 0, t));

    // the first `=` stands right after the name
    assert forall|j: int| 0 <= j < nl implies t[j] != '=' by {
        lemma_word_char_plain(content[j]);
    }
    lemma_find_char_unique(t, '=', nl);

    // the name comes out whole
    assert(t.take(nl) =~= name);
    lemma_word_char_plain(name[0]);
    lemma_word_char_plain(name[nl - 1]);
    assert(name.last() == name[nl - 1]);
    lemma_trim_noop(name);
    assert(trim(t.take(nl)) == name);

    // the value comes out whole
    assert(t.skip(nl + 1) =~= value);
    lemma_trim_noop(value);
    assert(trim(t.skip(nl + 1)) == value);
    assert(!next_starts_paren(ls, 0));
    assert(strip_comment(value) == value);

    // a plain scalar: no quote to strip, nothing more consumed
    assert(value[0] != '(');
    assert(extract_value(ls, 0, value) == (1int, value));

    // nothing prior, so self-reference resolution leaves it alone
    let empty_store = Seq::<(Seq<char>, Seq<char>)>::empty();
    assert(assoc_find(empty_store, lower(name)) is None);
    assert(resolve_self(empty_store, name, value) == value);
    let st1 = seq![(lower(name), value)];
    assert(assoc_update(empty_store, lower(name), value) =~= st1);
    assert(scan_step(ls, 0, empty_store) == (1int, st1));
    assert(scan_lines(ls, 0, empty_store) == scan_lines(ls, 1, st1));
    assert(scan_lines(ls, 1, st1) == st1);

    // no `$`, so both finishing passes keep the value
    assert(!has_char(st1[0].1, '$'));
    assert(resolve_pass(st1) =~= st1);
    assert(spec_parse(content) == st1);
}

/// Extraction is a pure function of the document: any two results of parsing
/// the same content are equal.
pub proof fn lemma_parse_deterministic(content: Seq<char>, a: SpecStore, b: SpecStore)
    requires
        a == spec_parse(content),
        b == spec_parse(content),
    ensures
        a == b,
{
}

} // verus!
