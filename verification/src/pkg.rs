//! Installed-package metadata: the identity encoded in a package directory
//! name and the single-line facts read from its files.
//!
//! Reading the directory tree itself is I/O and lives outside this crate;
//! here stand the decisions: how a directory name splits into package name
//! and version, and how a fact file's first line becomes a field.

use vstd::prelude::*;

use crate::text::{
    chars_to_string, extend_vec, find_char, find_char_from, lemma_find_char_props, lines_of,
    lines_vec, sub_vec, to_char_vec, trim, trim_vec,
};

verus! {

/// An ASCII decimal digit.
pub open spec fn is_digit_char(c: char) -> bool {
    48 <= c as u32 && c as u32 <= 57
}

/// The pieces of `s` between occurrences of `sep`; an empty input has one
/// empty piece, as `str::split` has it.
pub open spec fn split_on(s: Seq<char>, sep: char) -> Seq<Seq<char>>
    decreases s.len(),
    via split_on_decreases
{
    match find_char(s, sep) {
        Some(i) => seq![s.take(i)] + split_on(s.skip(i + 1), sep),
        None => seq![s],
    }
}

#[via_fn]
proof fn split_on_decreases(s: Seq<char>, sep: char) {
    lemma_find_char_props(s, sep);
}

/// The pieces from `k` (inclusive) to `end` (exclusive) joined with `sep`.
pub open spec fn join_range(parts: Seq<Seq<char>>, k: int, end: int, sep: char) -> Seq<char>
    decreases end - k,
{
    if k < 0 || k >= end {
        Seq::empty()
    } else if k == end - 1 {
        parts[k]
    } else {
        parts[k] + seq![sep] + join_range(parts, k + 1, end, sep)
    }
}

/// First index at or after `k` of a piece that opens with a digit.
pub open spec fn first_version_idx(parts: Seq<Seq<char>>, k: int) -> Option<int>
    decreases parts.len() - k,
{
    if k < 0 || k >= parts.len() {
        None
    } else if parts[k].len() > 0 && is_digit_char(parts[k][0]) {
        Some(k)
    } else {
        first_version_idx(parts, k + 1)
    }
}

/// How a package directory name splits: at the first `-`-separated piece,
/// scanning from the second piece on, that opens with an ASCII digit;
/// everything before it is the package name, everything from it on is the
/// version. A name with no such piece is all package, with an empty version.
pub open spec fn spec_split_package_version(dir: Seq<char>) -> (Seq<char>, Seq<char>) {
    let parts = split_on(dir, '-');
    match first_version_idx(parts, 1) {
        Some(i) => (
            join_range(parts, 0, i, '-'),
            join_range(parts, i, parts.len() as int, '-'),
        ),
        None => (dir, Seq::empty()),
    }
}

fn split_on_vec(v: &Vec<char>, sep: char) -> (out: Vec<Vec<char>>)
    ensures
        out@.len() == split_on(v@, sep).len(),
        forall|k: int| 0 <= k < out@.len() ==> out@[k]@ == split_on(v@, sep)[k],
{
    let mut out: Vec<Vec<char>> = Vec::new();
    let mut i: usize = 0;
    let ghost all = split_on(v@, sep);
    assert(v@.skip(0) =~= v@);
    loop
        invariant
            i <= v@.len(),
            all == split_on(v@, sep),
            all.len() == out@.len() + split_on(v@.skip(i as int), sep).len(),
            forall|k: int| 0 <= k < out@.len() ==> out@[k]@ == all[k],
            forall|k: int|
                0 <= k < split_on(v@.skip(i as int), sep).len() ==> split_on(
                    v@.skip(i as int),
                    sep,
                )[k] == all[out@.len() + k],
        decreases v@.len() - i,
    {
        let ghost rest = v@.skip(i as int);
        let nv = v.len();
        let piece: Vec<char>;
        let next: usize;
        let mut done = false;
        match find_char_from(v, sep, i) {
            Some(e) => {
                proof {
                    lemma_find_char_props(rest, sep);
                    assert(e < nv);
                }
                piece = sub_vec(v, i, e);
                assert(piece@ =~= rest.take(e - i));
                next = e + 1;
                assert(rest.skip(e - i + 1) =~= v@.skip(next as int));
                assert(split_on(rest, sep) == seq![rest.take(e - i)] + split_on(
                    v@.skip(next as int),
                    sep,
                ));
            },
            None => {
                piece = sub_vec(v, i, v.len());
                assert(piece@ =~= rest);
                next = v.len();
                assert(split_on(rest, sep) == seq![rest]);
                done = true;
            },
        }
        proof {
            let dn = out@.len() as int;
            assert(split_on(rest, sep)[0] == piece@);
            assert(all[dn] == piece@);
            if !done {
                assert forall|k: int|
                    0 <= k < split_on(v@.skip(next as int), sep).len() implies split_on(
                    v@.skip(next as int),
                    sep,
                )[k] == all[dn + 1 + k] by {
                    assert(split_on(rest, sep)[k + 1] == split_on(v@.skip(next as int), sep)[k]);
                }
            }
        }
        out.push(piece);
        i = next;
        if done {
            proof {
                assert(all.len() == out@.len());
            }
            return out;
        }
    }
}

/// Splits a package directory name into package name and version.
pub fn split_package_version(dir_name: &str) -> (r: (String, String))
    ensures
        r.0@ == spec_split_package_version(dir_name@).0,
        r.1@ == spec_split_package_version(dir_name@).1,
{
    let cv = to_char_vec(dir_name);
    let parts = split_on_vec(&cv, '-');
    let ghost ps = split_on(cv@, '-');
    let n = parts.len();
    let mut k: usize = 1;
    while k < n
        invariant
            1 <= k,
            n == parts@.len(),
            n == ps.len(),
            cv@ == dir_name@,
            ps == split_on(cv@, '-'),
            forall|m: int| 0 <= m < n ==> parts@[m]@ == ps[m],
            first_version_idx(ps, 1) == first_version_idx(ps, k as int),
        decreases n - k,
    {
        let p = &parts[k];
        if p.len() > 0 {
            let c = p[0];
            let u = c as u32;
            if 48 <= u && u <= 57 {
                proof {
                    assert(ps[k as int].len() > 0 && is_digit_char(ps[k as int][0]));
                    assert(first_version_idx(ps, k as int) == Some(k as int));
                    assert(Seq::new(parts@.len() as nat, |m: int| parts@[m]@) =~= ps);
                    assert(cv@ == dir_name@);
                }
                let namev = join_parts(&parts, 0, k, '-');
                let verv = join_parts(&parts, k, n, '-');
                return (chars_to_string(&namev), chars_to_string(&verv));
            }
        }
        proof {
            assert(!(ps[k as int].len() > 0 && is_digit_char(ps[k as int][0])));
        }
        k = k + 1;
    }
    proof {
        assert(first_version_idx(ps, k as int) is None);
    }
    let name = chars_to_string(&cv);
    (name, String::new())
}

fn join_parts(parts: &Vec<Vec<char>>, a: usize, b: usize, sep: char) -> (out: Vec<char>)
    requires
        a <= b <= parts@.len(),
    ensures
        out@ == join_range(
            Seq::new(parts@.len() as nat, |m: int| parts@[m]@),
            a as int,
            b as int,
            sep,
        ),
{
    let ghost ps = Seq::new(parts@.len() as nat, |m: int| parts@[m]@);
    let mut out: Vec<char> = Vec::new();
    let mut k: usize = a;
    assert(out@ + join_range(ps, a as int, b as int, sep) =~= join_range(
        ps,
        a as int,
        b as int,
        sep,
    ));
    while k < b
        invariant
            a <= k <= b <= parts@.len(),
            ps == Seq::new(parts@.len() as nat, |m: int| parts@[m]@),
            join_range(ps, a as int, b as int, sep) == out@ + join_range(
                ps,
                k as int,
                b as int,
                sep,
            ),
        decreases b - k,
    {
        let ghost out0 = out@;
        extend_vec(&mut out, &parts[k]);
        if k + 1 < b {
            out.push(sep);
            proof {
                assert(join_range(ps, k as int, b as int, sep) == ps[k as int] + seq![sep]
                    + join_range(ps, k as int + 1, b as int, sep));
                assert(out0 + (ps[k as int] + seq![sep] + join_range(
                    ps,
                    k as int + 1,
                    b as int,
                    sep,
                )) =~= out@ + join_range(ps, k as int + 1, b as int, sep));
            }
        } else {
            proof {
                assert(join_range(ps, k as int, b as int, sep) == ps[k as int]);
                assert(out0 + ps[k as int] =~= out@);
                assert(out@ + join_range(ps, k as int + 1, b as int, sep) =~= out@);
            }
        }
        k = k + 1;
    }
    assert(join_range(ps, k as int, b as int, sep) =~= Seq::<char>::empty());
    assert(out@ =~= out@ + join_range(ps, k as int, b as int, sep));
    out
}

/// The first line of a document, trimmed; absent when the document has no
/// line at all.
pub fn first_line(content: &str) -> (r: Option<String>)
    ensures
        match r {
            Some(s) => lines_of(content@).len() > 0 && s@ == trim(lines_of(content@)[0]),
            None => lines_of(content@).len() == 0,
        },
{
    let cv = to_char_vec(content);
    let lines = lines_vec(&cv);
    if lines.len() == 0 {
        None
    } else {
        let t = trim_vec(&lines[0]);
        Some(chars_to_string(&t))
    }
}

/// A package of the installed-package database: its identity and the
/// single-line facts recorded beside it.
pub struct VarDbPkg {
    pub category: String,
    pub package: String,
    pub version: String,
    pub buildtime: String,
    pub description: String,
    pub homepage: String,
    pub iuse: String,
    pub keywords: String,
    pub license: String,
    pub rdepend: String,
    pub repository: String,
    pub slot: String,
    pub usepkg: String,
    pub eapi: String,
    pub binpkgmd5: String,
}

impl Default for VarDbPkg {
    fn default() -> (r: Self)
        ensures
            r.category@ == Seq::<char>::empty(),
            r.package@ == Seq::<char>::empty(),
            r.version@ == Seq::<char>::empty(),
            r.buildtime@ == Seq::<char>::empty(),
            r.description@ == Seq::<char>::empty(),
            r.homepage@ == Seq::<char>::empty(),
            r.iuse@ == Seq::<char>::empty(),
            r.keywords@ == Seq::<char>::empty(),
            r.license@ == Seq::<char>::empty(),
            r.rdepend@ == Seq::<char>::empty(),
            r.repository@ == Seq::<char>::empty(),
            r.slot@ == Seq::<char>::empty(),
            r.usepkg@ == Seq::<char>::empty(),
            r.eapi@ == Seq::<char>::empty(),
            r.binpkgmd5@ == Seq::<char>::empty(),
    {
        VarDbPkg {
            category: String::new(),
            package: String::new(),
            version: String::new(),
            buildtime: String::new(),
            description: String::new(),
            homepage: String::new(),
            iuse: String::new(),
            keywords: String::new(),
            license: String::new(),
            rdepend: String::new(),
            repository: String::new(),
            slot: String::new(),
            usepkg: String::new(),
            eapi: String::new(),
            binpkgmd5: String::new(),
        }
    }
}

/// The single-line facts read for one package directory, each already
/// defaulted to empty where its file was missing.
pub struct PkgFacts {
    pub buildtime: String,
    pub description: String,
    pub homepage: String,
    pub iuse: String,
    pub keywords: String,
    pub license: String,
    pub rdepend: String,
    pub repository: String,
    pub slot: String,
    pub usepkg: String,
    pub eapi: String,
    pub binpkgmd5: String,
}

/// Assembles a package record: the category is taken as given, the
/// directory name is split into package name and version, and the facts
/// fill the remaining fields.
pub fn parse_package_dir(category: &str, dir_name: &str, facts: PkgFacts) -> (r: Option<VarDbPkg>)
    ensures
        r is Some,
        r->Some_0.category@ == category@,
        r->Some_0.package@ == spec_split_package_version(dir_name@).0,
        r->Some_0.version@ == spec_split_package_version(dir_name@).1,
        r->Some_0.buildtime == facts.buildtime,
        r->Some_0.description == facts.description,
        r->Some_0.homepage == facts.homepage,
        r->Some_0.iuse == facts.iuse,
        r->Some_0.keywords == facts.keywords,
        r->Some_0.license == facts.license,
        r->Some_0.rdepend == facts.rdepend,
        r->Some_0.repository == facts.repository,
        r->Some_0.slot == facts.slot,
        r->Some_0.usepkg == facts.usepkg,
        r->Some_0.eapi == facts.eapi,
        r->Some_0.binpkgmd5 == facts.binpkgmd5,
{
    let split = split_package_version(dir_name);
    let cat = category.to_owned();
    Some(
        VarDbPkg {
            category: cat,
            package: split.0,
            version: split.1,
            buildtime: facts.buildtime,
            description: facts.description,
            homepage: facts.homepage,
            iuse: facts.iuse,
            keywords: facts.keywords,
            license: facts.license,
            rdepend: facts.rdepend,
            repository: facts.repository,
            slot: facts.slot,
            usepkg: facts.usepkg,
            eapi: facts.eapi,
            binpkgmd5: facts.binpkgmd5,
        },
    )
}

} // verus!
