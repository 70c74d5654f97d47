//! The report: per-package installed sizes, filtered, expanded, sorted and
//! totalled.

use vstd::prelude::*;
use vstd::utf8::encode_utf8;

use crate::args::{Arguments, SortColumn};
use crate::closure::{closure_of, lemma_result_names, name_set};
use crate::index::{has_pkg, lemma_sum_sizes_prefix, pkg_names, sum_sizes, Package, PackageIndex};
use crate::matcher::{any_matches, pattern_matches, pattern_valid, regex_error_message, NamePattern};

verus! {

/// One row of the report.
#[derive(Clone, Debug)]
pub struct PkgDiskUsage {
    pub name: String,
    pub installed_size: i64,
    pub description: String,
    pub si_unit: bool,
}

/// The text humansize gives for `size` bytes, in powers of 1000 when
/// `decimal` holds and of 1024 otherwise.
pub uninterp spec fn human_size(size: int, decimal: bool) -> Seq<char>;

/// Relies on humansize::format_size_i with its DECIMAL or BINARY options: the
/// text depends on the size and the choice of unit base alone.
#[verifier::external_body]
fn format_size(size: i64, decimal: bool) -> (r: String)
    ensures
        r@ == human_size(size as int, decimal),
{
    humansize::format_size_i(size, if decimal { humansize::DECIMAL } else { humansize::BINARY })
}

impl PkgDiskUsage {
    /// The installed size as text, in SI units (powers of 1000) when the row
    /// asks for them and in binary units (powers of 1024) otherwise.
    pub fn display_installed_size(&self) -> (r: String)
        ensures
            r@ == human_size(self.installed_size as int, self.si_unit),
    {
        format_size(self.installed_size, self.si_unit)
    }
}

/// Why a report could not be built.
#[derive(Clone, Debug)]
pub enum BuildError {
    /// The package-name pattern is not a valid regular expression.
    InvalidPattern { pattern: String, message: String },
    /// This exclude pattern is not a valid regular expression.
    InvalidExclude { pattern: String, message: String },
}

/// A report and the options it is built with.
#[derive(Debug)]
pub struct Report {
    pub pkgs: Vec<PkgDiskUsage>,
    pub pkgname_pattern: Option<String>,
    pub exclude_pattern: Option<Vec<String>>,
    pub regex: bool,
    pub recursive_depends_on: bool,
    pub sort: SortColumn,
    pub description: bool,
    pub si_unit: bool,
    pub total: bool,
    pub quiet: bool,
}

/// Lexicographic order on bytes: whether `a` sorts no later than `b`.
pub open spec fn bytes_le(a: Seq<u8>, b: Seq<u8>) -> bool
    decreases a.len(),
{
    if a.len() == 0 {
        true
    } else if b.len() == 0 {
        false
    } else if a[0] != b[0] {
        a[0] < b[0]
    } else {
        bytes_le(a.drop_first(), b.drop_first())
    }
}

/// Whether an entry with name `an` and size `asz` may stand before one with
/// name `bn` and size `bsz` under `sort`: names compare by the bytes of their
/// UTF-8 encoding, sizes as numbers.
pub open spec fn key_le(sort: SortColumn, an: Seq<char>, asz: int, bn: Seq<char>, bsz: int) -> bool {
    match sort {
        SortColumn::NameAscending => bytes_le(encode_utf8(an), encode_utf8(bn)),
        SortColumn::NameDescending => bytes_le(encode_utf8(bn), encode_utf8(an)),
        SortColumn::InstalledSizeAscending => asz <= bsz,
        SortColumn::InstalledSizeDescending => asz >= bsz,
    }
}

/// Whether the package at position `i` of the index stands before the one at
/// `j` in a report sorted on `sort`: by the sort key, ties in enumeration order.
pub open spec fn pos_before(sort: SortColumn, pkgs: Seq<Package>, i: int, j: int) -> bool {
    &&& key_le(sort, pkgs[i].name@, pkgs[i].installed_size as int, pkgs[j].name@, pkgs[j].installed_size as int)
    &&& key_le(sort, pkgs[j].name@, pkgs[j].installed_size as int, pkgs[i].name@, pkgs[i].installed_size as int) ==> i < j
}

/// Whether positions `s` are in report order.
pub open spec fn positions_sorted(sort: SortColumn, pkgs: Seq<Package>, s: Seq<usize>) -> bool {
    forall|a: int| 0 <= a < s.len() - 1 ==> pos_before(sort, pkgs, #[trigger] s[a] as int, s[a + 1] as int)
}

proof fn lemma_bytes_le_step(a: Seq<u8>, b: Seq<u8>, i: int)
    requires
        0 <= i < a.len(),
        i < b.len(),
    ensures
        bytes_le(a.skip(i), b.skip(i)) == if a[i] != b[i] {
            a[i] < b[i]
        } else {
            bytes_le(a.skip(i + 1), b.skip(i + 1))
        },
{
    assert(a.skip(i).drop_first() =~= a.skip(i + 1));
    assert(b.skip(i).drop_first() =~= b.skip(i + 1));
}

proof fn lemma_bytes_le_total(a: Seq<u8>, b: Seq<u8>)
    ensures
        bytes_le(a, b) || bytes_le(b, a),
        bytes_le(a, a),
    decreases a.len(),
{
    if a.len() > 0 && b.len() > 0 {
        lemma_bytes_le_total(a.drop_first(), b.drop_first());
    }
    if a.len() > 0 {
        lemma_bytes_le_total(a.drop_first(), a.drop_first());
    }
}

proof fn lemma_key_le_total(sort: SortColumn, an: Seq<char>, asz: int, bn: Seq<char>, bsz: int)
    ensures
        key_le(sort, an, asz, bn, bsz) || key_le(sort, bn, bsz, an, asz),
{
    lemma_bytes_le_total(encode_utf8(an), encode_utf8(bn));
}

fn bytes_le_exec(a: &[u8], b: &[u8]) -> (r: bool)
    ensures
        r == bytes_le(a@, b@),
{
    let mut i: usize = 0;
    assert(a@.skip(0) =~= a@);
    assert(b@.skip(0) =~= b@);
    while i < a.len() && i < b.len()
        invariant
            0 <= i <= a@.len(),
            i <= b@.len(),
            bytes_le(a@, b@) == bytes_le(a@.skip(i as int), b@.skip(i as int)),
        decreases a@.len() - i,
    {
        proof {
            lemma_bytes_le_step(a@, b@, i as int);
        }
        if a[i] != b[i] {
            return a[i] < b[i];
        }
        i = i + 1;
    }
    assert(a@.skip(0) =~= a@);
    assert(b@.skip(0) =~= b@);
    i == a.len()
}

fn key_le_exec(sort: SortColumn, an: &String, asz: i64, bn: &String, bsz: i64) -> (r: bool)
    ensures
        r == key_le(sort, an@, asz as int, bn@, bsz as int),
{
    match sort {
        SortColumn::NameAscending => bytes_le_exec(an.as_str().as_bytes(), bn.as_str().as_bytes()),
        SortColumn::NameDescending => bytes_le_exec(bn.as_str().as_bytes(), an.as_str().as_bytes()),
        SortColumn::InstalledSizeAscending => asz <= bsz,
        SortColumn::InstalledSizeDescending => asz >= bsz,
    }
}

/// Sorts positions of the index, given in increasing order, into report
/// order: by the key of `sort`, ties kept in enumeration order.
fn sort_positions(index: &PackageIndex, sort: SortColumn, pos: &Vec<usize>) -> (r: Vec<usize>)
    requires
        forall|a: int| 0 <= a < pos@.len() ==> (#[trigger] pos@[a]) < index@.len(),
        forall|a: int, b: int| 0 <= a < b < pos@.len() ==> pos@[a] < pos@[b],
    ensures
        r@.len() == pos@.len(),
        r@.no_duplicates(),
        forall|y: usize| r@.contains(y) <==> pos@.contains(y),
        positions_sorted(sort, index@, r@),
{
    let pkgs = index.packages();
    let mut out: Vec<usize> = Vec::new();
    let mut c: usize = 0;
    while c < pos.len()
        invariant
            pkgs@ == index@,
            forall|a: int| 0 <= a < pos@.len() ==> (#[trigger] pos@[a]) < index@.len(),
            forall|a: int, b: int| 0 <= a < b < pos@.len() ==> pos@[a] < pos@[b],
            0 <= c <= pos@.len(),
            out@.len() == c,
            out@.no_duplicates(),
            forall|y: usize| out@.contains(y) <==> pos@.take(c as int).contains(y),
            forall|a: int| 0 <= a < out@.len() ==> (#[trigger] out@[a]) < index@.len(),
            c > 0 ==> forall|a: int| 0 <= a < out@.len() ==> (#[trigger] out@[a]) <= pos@[c - 1],
            positions_sorted(sort, index@, out@),
        decreases pos@.len() - c,
    {
        let x = pos[c];
        let mut p = out.len();
        while p > 0 && !key_le_exec(
            sort,
            &pkgs[out[p - 1]].name,
            pkgs[out[p - 1]].installed_size,
            &pkgs[x].name,
            pkgs[x].installed_size,
        )
            invariant
                pkgs@ == index@,
                x < index@.len(),
                0 <= p <= out@.len(),
                forall|a: int| 0 <= a < out@.len() ==> (#[trigger] out@[a]) < index@.len(),
                forall|a: int|
                    p <= a < out@.len() ==> !key_le(
                        sort,
                        index@[#[trigger] out@[a] as int].name@,
                        index@[out@[a] as int].installed_size as int,
                        index@[x as int].name@,
                        index@[x as int].installed_size as int,
                    ),
            decreases p,
        {
            p = p - 1;
        }
        let ghost old_out = out@;
        proof {
            assert(pos@.take(c + 1) =~= pos@.take(c as int).push(x));
            if c > 0 {
                assert(pos@[c - 1] < pos@[c as int]);
            }
            assert(!old_out.contains(x)) by {
                if old_out.contains(x) {
                    let a = choose|a: int| 0 <= a < old_out.len() && old_out[a] == x;
                    assert(old_out[a] <= pos@[c - 1]);
                }
            }
        }
        out.insert(p, x);
        proof {
            let n = out@;
            assert(n =~= old_out.take(p as int).push(x) + old_out.skip(p as int));
            assert forall|a: int| 0 <= a < n.len() implies #[trigger] n[a] < index@.len() && n[a]
                <= pos@[c as int] by {
                if a < p {
                    assert(n[a] == old_out[a]);
                } else if a > p {
                    assert(n[a] == old_out[a - 1]);
                }
            }
            let t0 = pos@.take(c as int);
            let t1 = pos@.take(c + 1);
            assert forall|y: usize| n.contains(y) <==> t1.contains(y) by {
                if n.contains(y) {
                    let a = choose|a: int| 0 <= a < n.len() && n[a] == y;
                    if a < p {
                        assert(old_out[a] == y);
                        assert(old_out.contains(y));
                    } else if a > p {
                        assert(old_out[a - 1] == y);
                        assert(old_out.contains(y));
                    }
                    if old_out.contains(y) {
                        assert(t0.contains(y));
                        let k = choose|k: int| 0 <= k < t0.len() && t0[k] == y;
                        assert(t1[k] == y);
                    } else {
                        assert(t1[c as int] == y);
                    }
                }
                if t1.contains(y) {
                    let k = choose|k: int| 0 <= k < t1.len() && t1[k] == y;
                    if k < c {
                        assert(t0[k] == y);
                        assert(t0.contains(y));
                        assert(old_out.contains(y));
                        let a = choose|a: int| 0 <= a < old_out.len() && old_out[a] == y;
                        if a < p {
                            assert(n[a] == y);
                        } else {
                            assert(n[a + 1] == y);
                        }
                    } else {
                        assert(n[p as int] == y);
                    }
                }
            }
            assert forall|a: int, b: int|
                0 <= a < n.len() && 0 <= b < n.len() && a != b implies n[a] != n[b] by {
                let oa = if a < p { a } else { a - 1 };
                let ob = if b < p { b } else { b - 1 };
                if a != p as int && b != p as int {
                    assert(n[a] == old_out[oa]);
                    assert(n[b] == old_out[ob]);
                } else if a == p {
                    assert(n[b] == old_out[ob]);
                } else {
                    assert(n[a] == old_out[oa]);
                }
            }
            assert forall|a: int| 0 <= a < n.len() - 1 implies pos_before(
                sort,
                index@,
                #[trigger] n[a] as int,
                n[a + 1] as int,
            ) by {
                if a + 1 < p {
                    assert(n[a] == old_out[a] && n[a + 1] == old_out[a + 1]);
                } else if a + 1 == p {
                    assert(n[a] == old_out[a]);
                    assert(old_out[a] <= pos@[c - 1]);
                } else if a == p {
                    assert(n[a + 1] == old_out[a]);
                    lemma_key_le_total(
                        sort,
                        index@[x as int].name@,
                        index@[x as int].installed_size as int,
                        index@[old_out[a] as int].name@,
                        index@[old_out[a] as int].installed_size as int,
                    );
                } else {
                    assert(n[a] == old_out[a - 1] && n[a + 1] == old_out[a]);
                }
            }
        }
        c = c + 1;
    }
    assert(pos@.take(pos@.len() as int) =~= pos@);
    out
}

/// Names that the name pattern selects: the installed names it matches, or
/// all installed names without a pattern.
pub open spec fn matched_names(pkgs: Seq<Package>, pattern: Option<String>, regex: bool) -> Set<
    Seq<char>,
> {
    match pattern {
        Some(p) => Set::new(|n: Seq<char>| has_pkg(pkgs, n) && pattern_matches(regex, p@, n)),
        None => pkg_names(pkgs),
    }
}

/// Whether an exclude pattern matches `n`.
pub open spec fn is_excluded(exclude: Option<Vec<String>>, regex: bool, n: Seq<char>) -> bool {
    match exclude {
        Some(xs) => any_matches(regex, xs@, n),
        None => false,
    }
}

/// The names of the report: those matched, expanded to their dependency
/// closure when asked for and a pattern was given, then those excluded
/// taken out.
pub open spec fn report_names(pkgs: Seq<Package>, r: Report) -> Set<Seq<char>> {
    let m = matched_names(pkgs, r.pkgname_pattern, r.regex);
    let e = if r.recursive_depends_on && r.pkgname_pattern is Some {
        closure_of(pkgs, m)
    } else {
        m
    };
    Set::new(|n: Seq<char>| e.contains(n) && !is_excluded(r.exclude_pattern, r.regex, n))
}

/// The packages of `pkgs` whose names are in `s`, in the order of `pkgs`.
pub open spec fn select(pkgs: Seq<Package>, s: Set<Seq<char>>) -> Seq<Package>
    decreases pkgs.len(),
{
    if pkgs.len() == 0 {
        Seq::empty()
    } else {
        let rest = select(pkgs.drop_last(), s);
        if s.contains(pkgs.last().name@) {
            rest.push(pkgs.last())
        } else {
            rest
        }
    }
}

/// Whether the name pattern, if any, is usable.
pub open spec fn name_pattern_valid(r: Report) -> bool {
    match r.pkgname_pattern {
        Some(p) => pattern_valid(r.regex, p@),
        None => true,
    }
}

/// Whether every pattern of the report is usable.
pub open spec fn patterns_valid(r: Report) -> bool {
    &&& name_pattern_valid(r)
    &&& r.exclude_pattern matches Some(xs) ==> forall|i: int|
        0 <= i < xs@.len() ==> pattern_valid(r.regex, (#[trigger] xs@[i])@)
}

/// Whether `row` shows package `p`: its name and size, its description when
/// asked for and an empty one otherwise.
pub open spec fn row_matches(row: PkgDiskUsage, p: Package, description: bool, si_unit: bool) -> bool {
    &&& row.name@ == p.name@
    &&& row.installed_size == p.installed_size
    &&& row.description@ == if description {
        p.description@
    } else {
        Seq::<char>::empty()
    }
    &&& row.si_unit == si_unit
}

/// Whether the package named `a` comes before the one named `b` in the index.
pub open spec fn index_before(pkgs: Seq<Package>, a: Seq<char>, b: Seq<char>) -> bool {
    exists|i: int, j: int| 0 <= i < j < pkgs.len() && pkgs[i].name@ == a && pkgs[j].name@ == b
}

/// Whether row `x` stands before row `y` in a report sorted on `sort`: by
/// the sort key, ties in enumeration order.
pub open spec fn row_before(sort: SortColumn, pkgs: Seq<Package>, x: PkgDiskUsage, y: PkgDiskUsage) -> bool {
    &&& key_le(sort, x.name@, x.installed_size as int, y.name@, y.installed_size as int)
    &&& key_le(sort, y.name@, y.installed_size as int, x.name@, x.installed_size as int)
        ==> index_before(pkgs, x.name@, y.name@)
}

/// Whether `row` shows a package of the report.
pub open spec fn shows_report_package(pkgs: Seq<Package>, r: Report, row: PkgDiskUsage) -> bool {
    exists|i: int|
        #![trigger pkgs[i]]
        0 <= i < pkgs.len() && report_names(pkgs, r).contains(pkgs[i].name@) && row_matches(
            row,
            pkgs[i],
            r.description,
            r.si_unit,
        )
}

/// Whether `rows` show each package of the report once, in report order.
pub open spec fn package_rows_ok(pkgs: Seq<Package>, r: Report, rows: Seq<PkgDiskUsage>) -> bool {
    let names = report_names(pkgs, r);
    &&& forall|a: int| 0 <= a < rows.len() ==> shows_report_package(pkgs, r, #[trigger] rows[a])
    &&& forall|i: int|
        0 <= i < pkgs.len() && names.contains(#[trigger] pkgs[i].name@) ==> exists|a: int|
            0 <= a < rows.len() && rows[a].name@ == pkgs[i].name@
    &&& forall|a: int, b: int|
        0 <= a < rows.len() && 0 <= b < rows.len() && a != b ==> rows[a].name@ != rows[b].name@
    &&& forall|a: int|
        0 <= a < rows.len() - 1 ==> row_before(r.sort, pkgs, #[trigger] rows[a], rows[a + 1])
}

/// Whether `row` is the grand-total row for `size`.
pub open spec fn total_row_ok(row: PkgDiskUsage, size: int, si_unit: bool) -> bool {
    &&& row.name@ == "(TOTAL)"@
    &&& row.installed_size == size
    &&& row.description@.len() == 0
    &&& row.si_unit == si_unit
}

/// The grand total of the report: the sizes of its packages, summed.
pub open spec fn report_total(pkgs: Seq<Package>, r: Report) -> int {
    sum_sizes(select(pkgs, report_names(pkgs, r)))
}

/// Whether `rows` are the report `r` asks for: its package rows in report
/// order, none in quiet mode, then the grand total when asked for.
pub open spec fn report_built(pkgs: Seq<Package>, r: Report, rows: Seq<PkgDiskUsage>) -> bool {
    let body = if r.total {
        rows.drop_last()
    } else {
        rows
    };
    &&& r.total ==> rows.len() > 0 && total_row_ok(rows.last(), report_total(pkgs, r), r.si_unit)
    &&& r.quiet ==> body.len() == 0
    &&& !r.quiet ==> package_rows_ok(pkgs, r, body)
}

/// Sizes summed over a selection are no more than over the whole.
proof fn lemma_select_sum(pkgs: Seq<Package>, s: Set<Seq<char>>)
    requires
        forall|a: int| 0 <= a < pkgs.len() ==> (#[trigger] pkgs[a]).installed_size >= 0,
    ensures
        0 <= sum_sizes(select(pkgs, s)) <= sum_sizes(pkgs),
    decreases pkgs.len(),
{
    if pkgs.len() > 0 {
        let init = pkgs.drop_last();
        assert forall|a: int| 0 <= a < init.len() implies (#[trigger] init[a]).installed_size >= 0 by {
            assert(init[a] == pkgs[a]);
        }
        lemma_select_sum(init, s);
        let rest = select(init, s);
        if s.contains(pkgs.last().name@) {
            assert(rest.push(pkgs.last()).drop_last() =~= rest);
        }
    }
}

fn make_row(p: &Package, description: bool, si_unit: bool) -> (r: PkgDiskUsage)
    ensures
        row_matches(r, *p, description, si_unit),
{
    PkgDiskUsage {
        name: p.name.clone(),
        installed_size: p.installed_size,
        description: if description {
            p.description.clone()
        } else {
            String::new()
        },
        si_unit,
    }
}

fn contains_name(v: &Vec<String>, name: &String) -> (r: bool)
    ensures
        r == name_set(v@).contains(name@),
{
    let mut a: usize = 0;
    while a < v.len()
        invariant
            0 <= a <= v@.len(),
            forall|t: int| 0 <= t < a ==> (#[trigger] v@[t])@ != name@,
        decreases v@.len() - a,
    {
        if v[a] == *name {
            assert(v@[a as int]@ == name@);
            return true;
        }
        a = a + 1;
    }
    false
}

fn any_pattern_matches(pats: &Vec<NamePattern>, name: &String) -> (r: bool)
    ensures
        r == exists|i: int|
            0 <= i < pats@.len() && pattern_matches(
                (#[trigger] pats@[i]).is_regex(),
                pats@[i].source(),
                name@,
            ),
{
    let mut a: usize = 0;
    while a < pats.len()
        invariant
            0 <= a <= pats@.len(),
            forall|t: int|
                0 <= t < a ==> !pattern_matches(
                    (#[trigger] pats@[t]).is_regex(),
                    pats@[t].source(),
                    name@,
                ),
        decreases pats@.len() - a,
    {
        if pats[a].is_match(name) {
            return true;
        }
        a = a + 1;
    }
    false
}

proof fn lemma_exclude_invalid(r: Report, k: int)
    requires
        r.exclude_pattern matches Some(xs) && 0 <= k < xs@.len() && !pattern_valid(
            r.regex,
            xs@[k]@,
        ),
    ensures
        !patterns_valid(r),
{
}

/// Whether `pattern` is the name pattern of `r`, compiled.
spec fn pattern_compiled(pattern: Option<NamePattern>, r: Report) -> bool {
    match pattern {
        Some(np) => r.pkgname_pattern matches Some(p) && np.is_regex() == r.regex && np.source()
            == p@,
        None => r.pkgname_pattern is None,
    }
}

/// Whether `excludes` are the exclude patterns of `r`, compiled.
spec fn excludes_compiled(excludes: Seq<NamePattern>, r: Report) -> bool {
    match r.exclude_pattern {
        Some(xs) => excludes.len() == xs@.len() && forall|t: int|
            0 <= t < excludes.len() ==> (#[trigger] excludes[t]).is_regex() == r.regex
                && excludes[t].source() == xs@[t]@,
        None => excludes.len() == 0,
    }
}

proof fn lemma_name_set_step(
    before: Seq<String>,
    after: Seq<String>,
    pkgs: Seq<Package>,
    i: int,
    hit: bool,
    regex: bool,
    src: Seq<char>,
)
    requires
        0 <= i < pkgs.len(),
        hit == pattern_matches(regex, src, pkgs[i].name@),
        hit ==> after.len() == before.len() + 1 && after.drop_last() == before && after.last()@
            == pkgs[i].name@,
        !hit ==> after == before,
        forall|nm: Seq<char>|
            name_set(before).contains(nm) <==> exists|t: int|
                0 <= t < i && (#[trigger] pkgs[t]).name@ == nm && pattern_matches(regex, src, nm),
    ensures
        forall|nm: Seq<char>|
            name_set(after).contains(nm) <==> exists|t: int|
                0 <= t < i + 1 && (#[trigger] pkgs[t]).name@ == nm && pattern_matches(regex, src, nm),
{
    assert forall|nm: Seq<char>|
        name_set(after).contains(nm) <==> exists|t: int|
            0 <= t < i + 1 && (#[trigger] pkgs[t]).name@ == nm && pattern_matches(regex, src, nm) by {
        if name_set(after).contains(nm) {
            let a = choose|a: int| 0 <= a < after.len() && (#[trigger] after[a])@ == nm;
            if hit && a == after.len() - 1 {
                assert(pkgs[i].name@ == nm);
            } else {
                assert(after[a] == before[a]);
                assert(name_set(before).contains(nm));
            }
        }
        if exists|t: int|
            0 <= t < i + 1 && (#[trigger] pkgs[t]).name@ == nm && pattern_matches(regex, src, nm) {
            let t = choose|t: int|
                0 <= t < i + 1 && (#[trigger] pkgs[t]).name@ == nm && pattern_matches(regex, src, nm);
            if t < i {
                assert(name_set(before).contains(nm));
                let a = choose|a: int| 0 <= a < before.len() && (#[trigger] before[a])@ == nm;
                assert(after[a] == before[a]);
            } else {
                assert(after[after.len() - 1]@ == nm);
            }
        }
    }
}

proof fn lemma_matched_set(pkgs: Seq<Package>, matched: Seq<String>, r: Report, regex: bool, src: Seq<char>)
    requires
        r.pkgname_pattern matches Some(p) && p@ == src,
        r.regex == regex,
        forall|nm: Seq<char>|
            name_set(matched).contains(nm) <==> exists|t: int|
                0 <= t < pkgs.len() && (#[trigger] pkgs[t]).name@ == nm && pattern_matches(
                    regex,
                    src,
                    nm,
                ),
    ensures
        name_set(matched) == matched_names(pkgs, r.pkgname_pattern, r.regex),
{
    assert(name_set(matched) =~= matched_names(pkgs, r.pkgname_pattern, r.regex));
}

proof fn lemma_selected_step(
    pkgs: Seq<Package>,
    r: Report,
    pattern: Option<NamePattern>,
    excludes: Seq<NamePattern>,
    closure: Option<Vec<String>>,
    i: int,
    in_set: bool,
    dropped: bool,
)
    requires
        0 <= i < pkgs.len(),
        pattern_compiled(pattern, r),
        excludes_compiled(excludes, r),
        closure is Some <==> r.recursive_depends_on && r.pkgname_pattern is Some,
        closure matches Some(c) ==> name_set(c@) == closure_of(
            pkgs,
            matched_names(pkgs, r.pkgname_pattern, r.regex),
        ),
        in_set == match closure {
            Some(c) => name_set(c@).contains(pkgs[i].name@),
            None => match pattern {
                Some(np) => pattern_matches(np.is_regex(), np.source(), pkgs[i].name@),
                None => true,
            },
        },
        dropped == exists|t: int|
            0 <= t < excludes.len() && pattern_matches(
                (#[trigger] excludes[t]).is_regex(),
                excludes[t].source(),
                pkgs[i].name@,
            ),
    ensures
        (in_set && !dropped) == report_names(pkgs, r).contains(pkgs[i].name@),
{
    let nm = pkgs[i].name@;
    assert(has_pkg(pkgs, nm));
    match r.exclude_pattern {
        Some(xs) => {
            if dropped {
                let t = choose|t: int|
                    0 <= t < excludes.len() && pattern_matches(
                        (#[trigger] excludes[t]).is_regex(),
                        excludes[t].source(),
                        nm,
                    );
                assert(pattern_matches(r.regex, xs@[t]@, nm));
            }
            if any_matches(r.regex, xs@, nm) {
                let t = choose|t: int|
                    0 <= t < xs@.len() && pattern_matches(r.regex, (#[trigger] xs@[t])@, nm);
                assert(pattern_matches(excludes[t].is_regex(), excludes[t].source(), nm));
            }
        },
        None => {},
    }
}

/// The selection over the first `i + 1` packages extends that over the first `i`.
proof fn lemma_select_step(pkgs: Seq<Package>, s: Set<Seq<char>>, i: int)
    requires
        0 <= i < pkgs.len(),
    ensures
        select(pkgs.take(i + 1), s) == if s.contains(pkgs[i].name@) {
            select(pkgs.take(i), s).push(pkgs[i])
        } else {
            select(pkgs.take(i), s)
        },
        sum_sizes(select(pkgs.take(i), s).push(pkgs[i])) == sum_sizes(select(pkgs.take(i), s))
            + pkgs[i].installed_size,
{
    assert(pkgs.take(i + 1).drop_last() =~= pkgs.take(i));
    assert(select(pkgs.take(i), s).push(pkgs[i]).drop_last() =~= select(pkgs.take(i), s));
}

/// A running total over the first `i + 1` packages fits in an `i64`.
proof fn lemma_sizes_fit(pkgs: Seq<Package>, s: Set<Seq<char>>, i: int)
    requires
        0 <= i < pkgs.len(),
        crate::index::index_wf(pkgs),
    ensures
        0 <= sum_sizes(select(pkgs.take(i + 1), s)) <= i64::MAX,
{
    let pre = pkgs.take(i + 1);
    assert forall|a: int| 0 <= a < pre.len() implies (#[trigger] pre[a]).installed_size >= 0 by {
        assert(pre[a] == pkgs[a]);
    }
    lemma_select_sum(pre, s);
    lemma_sum_sizes_prefix(pkgs, i + 1);
}

proof fn lemma_rows_ok(
    pkgs: Seq<Package>,
    r: Report,
    pos: Seq<usize>,
    order: Seq<usize>,
    rows: Seq<PkgDiskUsage>,
)
    requires
        pkgs.len() <= usize::MAX,
        crate::index::names_unique(pkgs),
        forall|t: usize| pos.contains(t) <==> t < pkgs.len() && report_names(pkgs, r).contains(
            pkgs[t as int].name@,
        ),
        order.no_duplicates(),
        forall|y: usize| order.contains(y) <==> pos.contains(y),
        forall|t: int| 0 <= t < order.len() ==> (#[trigger] order[t]) < pkgs.len(),
        positions_sorted(r.sort, pkgs, order),
        rows.len() == order.len(),
        forall|b: int|
            0 <= b < rows.len() ==> row_matches(
                #[trigger] rows[b],
                pkgs[order[b] as int],
                r.description,
                r.si_unit,
            ),
    ensures
        package_rows_ok(pkgs, r, rows),
{
    assert(pkgs.len() <= usize::MAX);
    let names = report_names(pkgs, r);
    assert forall|a: int| 0 <= a < rows.len() implies shows_report_package(
        pkgs,
        r,
        #[trigger] rows[a],
    ) by {
        assert(order.contains(order[a]));
        assert(pos.contains(order[a]));
        assert(names.contains(pkgs[order[a] as int].name@));
        assert(row_matches(rows[a], pkgs[order[a] as int], r.description, r.si_unit));
    }
    assert forall|i: int|
        0 <= i < pkgs.len() && names.contains(#[trigger] pkgs[i].name@) implies exists|a: int|
        0 <= a < rows.len() && rows[a].name@ == pkgs[i].name@ by {
        assert(pos.contains(i as usize));
        assert(order.contains(i as usize));
        let a = choose|a: int| 0 <= a < order.len() && order[a] == i as usize;
        assert(row_matches(rows[a], pkgs[order[a] as int], r.description, r.si_unit));
    }
    assert forall|a: int, b: int|
        0 <= a < rows.len() && 0 <= b < rows.len() && a != b implies rows[a].name@
        != rows[b].name@ by {
        assert(row_matches(rows[a], pkgs[order[a] as int], r.description, r.si_unit));
        assert(row_matches(rows[b], pkgs[order[b] as int], r.description, r.si_unit));
        assert(order[a] != order[b]);
    }
    assert forall|a: int| 0 <= a < rows.len() - 1 implies row_before(
        r.sort,
        pkgs,
        #[trigger] rows[a],
        rows[a + 1],
    ) by {
        assert(row_matches(rows[a], pkgs[order[a] as int], r.description, r.si_unit));
        assert(row_matches(rows[a + 1], pkgs[order[a + 1] as int], r.description, r.si_unit));
        assert(pos_before(r.sort, pkgs, order[a] as int, order[a + 1] as int));
        let i = order[a] as int;
        let j = order[a + 1] as int;
        if key_le(
            r.sort,
            rows[a + 1].name@,
            rows[a + 1].installed_size as int,
            rows[a].name@,
            rows[a].installed_size as int,
        ) {
            assert(0 <= i < j < pkgs.len() && pkgs[i].name@ == rows[a].name@ && pkgs[j].name@
                == rows[a + 1].name@);
            assert(index_before(pkgs, rows[a].name@, rows[a + 1].name@));
        }
    }
}

/// Whether the options of `r` are those of `a`, with quiet mode implying a
/// grand total.
pub open spec fn made_from(r: Report, a: Arguments) -> bool {
    &&& r.pkgname_pattern == a.pkgname_pattern
    &&& r.exclude_pattern == a.exclude_pattern
    &&& r.regex == a.regex
    &&& r.recursive_depends_on == a.recursive_depends_on
    &&& r.sort == a.sort
    &&& r.description == a.description
    &&& r.si_unit == a.si_unit
    &&& r.total == (a.quiet || a.total)
    &&& r.quiet == a.quiet
}

/// Whether `r1` and `r2` select packages alike: same patterns, same pattern
/// kind, same expansion.
pub open spec fn same_selection(r1: Report, r2: Report) -> bool {
    &&& r1.pkgname_pattern == r2.pkgname_pattern
    &&& r1.exclude_pattern == r2.exclude_pattern
    &&& r1.regex == r2.regex
    &&& r1.recursive_depends_on == r2.recursive_depends_on
}

/// The grand total is the summed size of the report's packages: two built
/// reports that select alike show the same total, whatever their sort order
/// and whether quiet mode emptied their rows.
pub proof fn total_invariant(
    pkgs: Seq<Package>,
    r1: Report,
    rows1: Seq<PkgDiskUsage>,
    r2: Report,
    rows2: Seq<PkgDiskUsage>,
)
    requires
        report_built(pkgs, r1, rows1),
        report_built(pkgs, r2, rows2),
        r1.total,
        r2.total,
        same_selection(r1, r2),
    ensures
        rows1.last().installed_size == sum_sizes(select(pkgs, report_names(pkgs, r1))),
        rows1.last().installed_size == rows2.last().installed_size,
{
    assert(report_names(pkgs, r1) =~= report_names(pkgs, r2));
}

/// In quiet mode a report made by `new` and built holds exactly one row: the
/// grand total of the packages selected.
pub proof fn quiet_implies_total(pkgs: Seq<Package>, a: Arguments, r: Report, rows: Seq<PkgDiskUsage>)
    requires
        made_from(r, a),
        a.quiet,
        report_built(pkgs, r, rows),
    ensures
        rows.len() == 1,
        total_row_ok(rows[0], report_total(pkgs, r), r.si_unit),
{
    assert(rows.drop_last().len() == 0);
}

impl Report {
    /// A report with no rows yet; quiet mode implies a grand total.
    pub fn new(options: Arguments) -> (r: Self)
        ensures
            r.pkgs@.len() == 0,
            made_from(r, options),
    {
        Self {
            pkgname_pattern: options.pkgname_pattern,
            exclude_pattern: options.exclude_pattern,
            regex: options.regex,
            recursive_depends_on: options.recursive_depends_on,
            pkgs: Vec::new(),
            sort: options.sort,
            description: options.description,
            si_unit: options.si_unit,
            total: options.quiet || options.total,
            quiet: options.quiet,
        }
    }

    /// Fills the rows of the report from `index`: the packages the name
    /// pattern matches (all without one), expanded to everything they
    /// require when asked for, less those an exclude pattern matches; sorted;
    /// dropped in quiet mode; then the grand total of those packages when
    /// asked for. Fails, changing nothing, when a pattern does not compile.
    pub fn build(&mut self, index: &PackageIndex) -> (r: Result<(), BuildError>)
        requires
            index.wf(),
        ensures
            final(self).pkgname_pattern == old(self).pkgname_pattern,
            final(self).exclude_pattern == old(self).exclude_pattern,
            final(self).regex == old(self).regex,
            final(self).recursive_depends_on == old(self).recursive_depends_on,
            final(self).sort == old(self).sort,
            final(self).description == old(self).description,
            final(self).si_unit == old(self).si_unit,
            final(self).total == old(self).total,
            final(self).quiet == old(self).quiet,
            r is Ok <==> patterns_valid(*old(self)),
            r is Ok ==> report_built(index@, *old(self), final(self).pkgs@),
            r matches Err(e) ==> final(self).pkgs@ == old(self).pkgs@ && (e is InvalidPattern
                <==> !name_pattern_valid(*old(self))),
    {
        let ghost pkgs = index@;
        let ghost rep = *self;
        let mut pattern: Option<NamePattern> = None;
        match &self.pkgname_pattern {
            Some(p) => match NamePattern::compile(p, self.regex) {
                Ok(np) => {
                    pattern = Some(np);
                },
                Err(e) => {
                    return Err(
                        BuildError::InvalidPattern { pattern: p.clone(), message: regex_error_message(&e) },
                    );
                },
            },
            None => {},
        }
        assert(pattern_compiled(pattern, rep));
        assert(name_pattern_valid(rep));
        let mut excludes: Vec<NamePattern> = Vec::new();
        match &self.exclude_pattern {
            Some(xs) => {
                let mut k: usize = 0;
                while k < xs.len()
                    invariant
                        rep.exclude_pattern == Some(*xs),
                        name_pattern_valid(rep),
                        forall|t: int| 0 <= t < k ==> pattern_valid(rep.regex, (#[trigger] xs@[t])@),
                        *self == rep,
                        *old(self) == rep,
                        rep.regex == self.regex,
                        0 <= k <= xs@.len(),
                        excludes@.len() == k,
                        forall|t: int|
                            0 <= t < k ==> (#[trigger] excludes@[t]).is_regex() == rep.regex
                                && excludes@[t].source() == xs@[t]@ && pattern_valid(
                                rep.regex,
                                xs@[t]@,
                            ),
                    decreases xs@.len() - k,
                {
                    match NamePattern::compile(&xs[k], self.regex) {
                        Ok(np) => {
                            let ghost before = excludes@;
                            excludes.push(np);
                            assert forall|t: int|
                                0 <= t < k + 1 implies (#[trigger] excludes@[t]).is_regex() == rep.regex
                                && excludes@[t].source() == xs@[t]@ && pattern_valid(
                                rep.regex,
                                xs@[t]@,
                            ) by {
                                if t < k {
                                    assert(excludes@[t] == before[t]);
                                }
                            }
                        },
                        Err(e) => {
                            proof {
                                lemma_exclude_invalid(rep, k as int);
                            }
                            return Err(
                                BuildError::InvalidExclude {
                                    pattern: xs[k].clone(),
                                    message: regex_error_message(&e),
                                },
                            );
                        },
                    }
                    k = k + 1;
                }
                assert(excludes_compiled(excludes@, rep));
                assert(patterns_valid(rep));
            },
            None => {
                assert(excludes_compiled(excludes@, rep));
                assert(patterns_valid(rep));
            },
        }
        let pkgs_v = index.packages();
        let n = pkgs_v.len();
        // what the name pattern matches, when it is to be expanded
        let mut closure: Option<Vec<String>> = None;
        if self.recursive_depends_on {
            match &pattern {
                Some(np) => {
                    let mut matched: Vec<String> = Vec::new();
                    let mut i: usize = 0;
                    while i < n
                        invariant
                            pkgs_v@ == pkgs,
                            n == pkgs.len(),
                            0 <= i <= n,
                            forall|nm: Seq<char>|
                                name_set(matched@).contains(nm) <==> exists|t: int|
                                    0 <= t < i && (#[trigger] pkgs[t]).name@ == nm && pattern_matches(
                                        np.is_regex(),
                                        np.source(),
                                        nm,
                                    ),
                        decreases n - i,
                    {
                        let ghost before = matched@;
                        let hit = np.is_match(&pkgs_v[i].name);
                        if hit {
                            matched.push(pkgs_v[i].name.clone());
                            assert(matched@.drop_last() =~= before);
                        }
                        proof {
                            lemma_name_set_step(before, matched@, pkgs, i as int, hit, np.is_regex(), np.source());
                        }
                        i = i + 1;
                    }
                    proof {
                        lemma_matched_set(pkgs, matched@, rep, np.is_regex(), np.source());
                    }
                    let deps = Report::recursive_deps(index, &matched);
                    proof {
                        lemma_result_names(pkgs, name_set(matched@), deps@);
                    }
                    closure = Some(deps);
                },
                None => {},
            }
        }
        let ghost names = report_names(pkgs, rep);
        let mut pos: Vec<usize> = Vec::new();
        let mut total: i64 = 0;
        let mut i: usize = 0;
        while i < n
            invariant
                pkgs_v@ == pkgs,
                pkgs == index@,
                index.wf(),
                n == pkgs.len(),
                0 <= i <= n,
                names == report_names(pkgs, rep),
                pattern_compiled(pattern, rep),
                excludes_compiled(excludes@, rep),
                closure is Some <==> rep.recursive_depends_on && rep.pkgname_pattern is Some,
                closure matches Some(c) ==> name_set(c@) == closure_of(
                    pkgs,
                    matched_names(pkgs, rep.pkgname_pattern, rep.regex),
                ),
                forall|a: int| 0 <= a < pos@.len() ==> (#[trigger] pos@[a]) < i,
                forall|a: int, b: int| 0 <= a < b < pos@.len() ==> pos@[a] < pos@[b],
                forall|t: usize| pos@.contains(t) <==> t < i && names.contains(pkgs[t as int].name@),
                total == sum_sizes(select(pkgs.take(i as int), names)),
            decreases n - i,
        {
            let name = &pkgs_v[i].name;
            let in_set = match &closure {
                Some(c) => contains_name(c, name),
                None => match &pattern {
                    Some(np) => np.is_match(name),
                    None => true,
                },
            };
            let dropped = any_pattern_matches(&excludes, name);
            proof {
                lemma_selected_step(pkgs, rep, pattern, excludes@, closure, i as int, in_set, dropped);
                lemma_select_step(pkgs, names, i as int);
                lemma_sizes_fit(pkgs, names, i as int);
            }
            let ghost before = pos@;
            if in_set && !dropped {
                pos.push(i);
                total = total + pkgs_v[i].installed_size;
            }
            proof {
                assert forall|t: usize| pos@.contains(t) <==> t < i + 1 && names.contains(
                    pkgs[t as int].name@,
                ) by {
                    if pos@.contains(t) {
                        let a = choose|a: int| 0 <= a < pos@.len() && pos@[a] == t;
                        if a < before.len() {
                            assert(before[a] == t);
                            assert(before.contains(t));
                        } else {
                            assert(t == i);
                        }
                    }
                    if t < i + 1 && names.contains(pkgs[t as int].name@) {
                        if t < i {
                            assert(before.contains(t));
                            let a = choose|a: int| 0 <= a < before.len() && before[a] == t;
                            assert(pos@[a] == t);
                        } else {
                            assert(pos@[pos@.len() - 1] == t);
                        }
                    }
                }
            }
            i = i + 1;
        }
        assert(pkgs.take(n as int) =~= pkgs);
        let order = sort_positions(index, self.sort, &pos);
        assert forall|t: int| 0 <= t < order@.len() implies (#[trigger] order@[t]) < pkgs.len() by {
            assert(order@.contains(order@[t]));
            assert(pos@.contains(order@[t]));
        }
        let mut rows: Vec<PkgDiskUsage> = Vec::new();
        if !self.quiet {
            let mut a: usize = 0;
            while a < order.len()
                invariant
                    pkgs_v@ == pkgs,
                    0 <= a <= order@.len(),
                    rows@.len() == a,
                    forall|t: int| 0 <= t < order@.len() ==> (#[trigger] order@[t]) < pkgs.len(),
                    forall|b: int|
                        0 <= b < a ==> row_matches(
                            #[trigger] rows@[b],
                            pkgs[order@[b] as int],
                            rep.description,
                            rep.si_unit,
                        ),
                    rep.description == self.description,
                    rep.si_unit == self.si_unit,
                decreases order@.len() - a,
            {
                rows.push(make_row(&pkgs_v[order[a]], self.description, self.si_unit));
                a = a + 1;
            }
            proof {
                lemma_rows_ok(pkgs, rep, pos@, order@, rows@);
            }
        }
        let ghost body = rows@;
        if self.total {
            rows.push(
                PkgDiskUsage {
                    name: "(TOTAL)".to_owned(),
                    installed_size: total,
                    description: String::new(),
                    si_unit: self.si_unit,
                },
            );
            assert(rows@.drop_last() =~= body);
        }
        self.pkgs = rows;
        Ok(())
    }
}

} // verus!
