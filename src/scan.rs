use vstd::prelude::*;
use crate::format::{pad_to, padded, str_eq, CrateDetectionStatus};
use crate::graph::ResolvedPackage;
use crate::pattern::{opt_view, pattern_text, Pattern};
use crate::tree::{decimal, push_decimal};
use vstd::utf8::encode_utf8;

verus! {

/// Safe and unsafe occurrences of one kind of construct.
#[derive(Clone, Copy, Debug, PartialEq, Eq, Structural)]
pub struct Count {
    pub safe: u64,
    pub unsafe_: u64,
}

/// Counters per kind of construct.
#[derive(Clone, Copy, Debug, PartialEq, Eq, Structural)]
pub struct CounterBlock {
    pub functions: Count,
    pub exprs: Count,
    pub item_impls: Count,
    pub item_traits: Count,
    pub methods: Count,
}

/// What a scan found in one source file.
#[derive(Clone, Copy, Debug, PartialEq, Eq, Structural)]
pub struct FileMetrics {
    pub counters: CounterBlock,
    /// The file declares `#![forbid(unsafe_code)]`.
    pub forbids_unsafe: bool,
}

/// A scanned source file of a package.
#[derive(Debug)]
pub struct ScannedFile {
    /// Canonical path.
    pub path: String,
    pub metrics: FileMetrics,
    /// A library, binary or build-script root rather than an ordinary module.
    pub is_crate_entry_point: bool,
}

/// The scanned files of one package.
#[derive(Debug)]
pub struct PackageMetrics {
    /// Index of the package in the resolved set.
    pub package: usize,
    pub files: Vec<ScannedFile>,
}

/// Counters used by the build and counters found, for one package.
#[derive(Clone, Copy, Debug, PartialEq, Eq, Structural)]
pub struct PackageSummary {
    /// Sums over the files that the build uses.
    pub used: CounterBlock,
    /// Sums over every scanned file.
    pub total: CounterBlock,
    /// Whether the package has an entry point and every entry point forbids
    /// unsafe code; `None` when no file was scanned.
    pub forbids_unsafe: Option<bool>,
    pub status: CrateDetectionStatus,
}

/// The ten counters of a block, in a fixed order.
pub open spec fn counters(b: CounterBlock) -> Seq<nat> {
    seq![
        b.functions.safe as nat,
        b.functions.unsafe_ as nat,
        b.exprs.safe as nat,
        b.exprs.unsafe_ as nat,
        b.item_impls.safe as nat,
        b.item_impls.unsafe_ as nat,
        b.item_traits.safe as nat,
        b.item_traits.unsafe_ as nat,
        b.methods.safe as nat,
        b.methods.unsafe_ as nat,
    ]
}

/// Ten zeros.
pub open spec fn zeros() -> Seq<nat> {
    Seq::new(10, |i: int| 0nat)
}

/// Pointwise sum.
pub open spec fn add_all(a: Seq<nat>, b: Seq<nat>) -> Seq<nat> {
    Seq::new(a.len(), |i: int| a[i] + b[i])
}

/// Each value capped at `u64::MAX`.
pub open spec fn cap(a: Seq<nat>) -> Seq<nat> {
    Seq::new(a.len(), |i: int| if a[i] > u64::MAX { u64::MAX as nat } else { a[i] })
}

/// The path is in the used-files set.
pub open spec fn is_used(path: Seq<char>, used: Seq<String>) -> bool {
    exists|i: int| 0 <= i < used.len() && (#[trigger] used[i])@ == path
}

/// Counters summed over the files, or over the used ones only.
pub open spec fn files_sum(files: Seq<ScannedFile>, used: Seq<String>, only_used: bool) -> Seq<nat>
    decreases files.len(),
{
    if files.len() == 0 {
        zeros()
    } else {
        let f = files.last();
        let rest = files_sum(files.drop_last(), used, only_used);
        if !only_used || is_used(f.path@, used) {
            add_all(rest, counters(f.metrics.counters))
        } else {
            rest
        }
    }
}

/// Some file is an entry point.
pub open spec fn has_entry_point(files: Seq<ScannedFile>) -> bool {
    exists|i: int| 0 <= i < files.len() && (#[trigger] files[i]).is_crate_entry_point
}

/// The package forbids unsafe code: it has an entry point, and every entry
/// point declares the forbid attribute.
pub open spec fn package_forbids(files: Seq<ScannedFile>) -> bool {
    has_entry_point(files) && entry_points_forbid(files)
}

/// Every entry point of the files forbids unsafe code.
pub open spec fn entry_points_forbid(files: Seq<ScannedFile>) -> bool {
    forall|i: int| 0 <= i < files.len() && (#[trigger] files[i]).is_crate_entry_point ==> files[i].metrics.forbids_unsafe
}

/// Some unsafe counter of the block is not zero.
pub open spec fn has_unsafe(b: CounterBlock) -> bool {
    b.functions.unsafe_ > 0 || b.exprs.unsafe_ > 0 || b.item_impls.unsafe_ > 0 || b.item_traits.unsafe_ > 0
        || b.methods.unsafe_ > 0
}

/// The status shown for a package: unsafe code used by the build, else
/// whether the package forbids it.
pub open spec fn detection_status(unsafe_used: bool, forbids: Option<bool>) -> CrateDetectionStatus {
    if unsafe_used {
        CrateDetectionStatus::UnsafeDetected
    } else if forbids == Some(true) {
        CrateDetectionStatus::NoneDetectedForbidsUnsafe
    } else {
        CrateDetectionStatus::NoneDetectedAllowsUnsafe
    }
}

impl CounterBlock {
    /// A block with every counter at zero.
    pub fn zero() -> (r: CounterBlock)
        ensures
            counters(r) == zeros(),
    {
        let z = Count { safe: 0, unsafe_: 0 };
        let r = CounterBlock { functions: z, exprs: z, item_impls: z, item_traits: z, methods: z };
        assert(counters(r) =~= zeros());
        r
    }
}

fn add_count(a: Count, b: Count) -> (r: Count)
    ensures
        r.safe == if a.safe + b.safe > u64::MAX { u64::MAX as int } else { a.safe + b.safe },
        r.unsafe_ == if a.unsafe_ + b.unsafe_ > u64::MAX { u64::MAX as int } else { a.unsafe_ + b.unsafe_ },
{
    Count { safe: a.safe.saturating_add(b.safe), unsafe_: a.unsafe_.saturating_add(b.unsafe_) }
}

/// Adds two blocks counter by counter, saturating at `u64::MAX`.
pub fn add_blocks(a: &CounterBlock, b: &CounterBlock) -> (r: CounterBlock)
    ensures
        counters(r) == cap(add_all(counters(*a), counters(*b))),
{
    let r = CounterBlock {
        functions: add_count(a.functions, b.functions),
        exprs: add_count(a.exprs, b.exprs),
        item_impls: add_count(a.item_impls, b.item_impls),
        item_traits: add_count(a.item_traits, b.item_traits),
        methods: add_count(a.methods, b.methods),
    };
    assert(counters(r) =~= cap(add_all(counters(*a), counters(*b))));
    r
}

proof fn lemma_cap_add(a: Seq<nat>, b: Seq<nat>)
    requires
        a.len() == 10,
        b.len() == 10,
    ensures
        cap(add_all(cap(a), b)) == cap(add_all(a, b)),
{
    assert(cap(add_all(cap(a), b)) =~= cap(add_all(a, b)));
}

proof fn lemma_files_sum_len(files: Seq<ScannedFile>, used: Seq<String>, only_used: bool)
    ensures
        files_sum(files, used, only_used).len() == 10,
    decreases files.len(),
{
    if files.len() > 0 {
        lemma_files_sum_len(files.drop_last(), used, only_used);
    }
}

/// Whether `path` is in the used-files set.
pub fn is_path_used(path: &String, used: &Vec<String>) -> (r: bool)
    ensures
        r == is_used(path@, used@),
{
    let mut i: usize = 0;
    while i < used.len()
        invariant
            i <= used@.len(),
            forall|k: int| 0 <= k < i ==> (#[trigger] used@[k])@ != path@,
        decreases used@.len() - i,
    {
        if str_eq(used[i].as_str(), path.as_str()) {
            return true;
        }
        i = i + 1;
    }
    false
}

/// Sums the counters of a package's files, over the files the build uses
/// ("x") and over all of them ("y"), and decides its status: unsafe code used
/// by the build, or else whether the package has an entry point and every
/// entry point forbids unsafe code. A package with no scanned file is
/// unknown, not safe.
pub fn summarize_package(files: &Vec<ScannedFile>, rs_files_used: &Vec<String>) -> (r: PackageSummary)
    ensures
        counters(r.used) == cap(files_sum(files@, rs_files_used@, true)),
        counters(r.total) == cap(files_sum(files@, rs_files_used@, false)),
        r.forbids_unsafe == if files@.len() == 0 {
            None
        } else {
            Some(package_forbids(files@))
        },
        r.status == detection_status(has_unsafe(r.used), r.forbids_unsafe),
{
    let mut used = CounterBlock::zero();
    let mut total = CounterBlock::zero();
    proof {
        assert(counters(used) =~= cap(files_sum(files@.take(0), rs_files_used@, true)));
        assert(counters(total) =~= cap(files_sum(files@.take(0), rs_files_used@, false)));
    }
    let mut forbids = true;
    let mut has_entry = false;
    let mut i: usize = 0;
    while i < files.len()
        invariant
            i <= files@.len(),
            counters(used) == cap(files_sum(files@.take(i as int), rs_files_used@, true)),
            counters(total) == cap(files_sum(files@.take(i as int), rs_files_used@, false)),
            forbids == entry_points_forbid(files@.take(i as int)),
            has_entry == has_entry_point(files@.take(i as int)),
        decreases files@.len() - i,
    {
        let f = &files[i];
        let ghost pre = files@.take(i as int);
        proof {
            assert(files@.take(i + 1).drop_last() =~= pre);
            assert(files@.take(i + 1).last() == files@[i as int]);
            lemma_files_sum_len(pre, rs_files_used@, true);
            lemma_files_sum_len(pre, rs_files_used@, false);
            lemma_cap_add(files_sum(pre, rs_files_used@, false), counters(f.metrics.counters));
            lemma_cap_add(files_sum(pre, rs_files_used@, true), counters(f.metrics.counters));
        }
        total = add_blocks(&total, &f.metrics.counters);
        if is_path_used(&f.path, rs_files_used) {
            used = add_blocks(&used, &f.metrics.counters);
        }
        if f.is_crate_entry_point && !f.metrics.forbids_unsafe {
            forbids = false;
        }
        if f.is_crate_entry_point {
            has_entry = true;
        }
        proof {
            let post = files@.take(i + 1);
            if has_entry {
                if f.is_crate_entry_point {
                    assert(post[i as int] == files@[i as int]);
                } else {
                    let k = choose|k: int| 0 <= k < pre.len() && (#[trigger] pre[k]).is_crate_entry_point;
                    assert(post[k] == pre[k]);
                }
            } else {
                assert forall|k: int| 0 <= k < post.len() implies !(#[trigger] post[k]).is_crate_entry_point by {
                    if k < i {
                        assert(post[k] == pre[k]);
                    }
                }
            }
            if forbids {
                assert forall|k: int| 0 <= k < post.len() && (#[trigger] post[k]).is_crate_entry_point implies post[k].metrics.forbids_unsafe by {
                    if k < i {
                        assert(post[k] == pre[k]);
                    }
                }
            } else if f.is_crate_entry_point && !f.metrics.forbids_unsafe {
                assert(post[i as int] == files@[i as int]);
            } else {
                let k = choose|k: int| 0 <= k < pre.len() && (#[trigger] pre[k]).is_crate_entry_point && !pre[k].metrics.forbids_unsafe;
                assert(post[k] == pre[k]);
            }
        }
        i = i + 1;
    }
    proof {
        assert(files@.take(i as int) =~= files@);
    }
    let forbids_unsafe = if files.len() == 0 {
        None
    } else {
        Some(has_entry && forbids)
    };
    let unsafe_used = used.functions.unsafe_ > 0 || used.exprs.unsafe_ > 0 || used.item_impls.unsafe_ > 0
        || used.item_traits.unsafe_ > 0 || used.methods.unsafe_ > 0;
    let status = if unsafe_used {
        CrateDetectionStatus::UnsafeDetected
    } else {
        match forbids_unsafe {
            Some(true) => CrateDetectionStatus::NoneDetectedForbidsUnsafe,
            _ => CrateDetectionStatus::NoneDetectedAllowsUnsafe,
        }
    };
    PackageSummary { used, total, forbids_unsafe, status }
}


/// The files scanned for package `p`: those of its first entry, if any.
pub open spec fn files_of(metrics: Seq<PackageMetrics>, p: usize) -> Seq<ScannedFile>
    decreases metrics.len(),
{
    if metrics.len() == 0 {
        Seq::empty()
    } else if metrics[0].package == p {
        metrics[0].files@
    } else {
        files_of(metrics.drop_first(), p)
    }
}

/// The summary of the files that were scanned for `package`; a package that
/// was never scanned has no files and an unknown forbids flag.
pub fn summary_for_package(metrics: &Vec<PackageMetrics>, package: usize, rs_files_used: &Vec<String>) -> (r:
    PackageSummary)
    ensures
        counters(r.used) == cap(files_sum(files_of(metrics@, package), rs_files_used@, true)),
        counters(r.total) == cap(files_sum(files_of(metrics@, package), rs_files_used@, false)),
        r.forbids_unsafe == if files_of(metrics@, package).len() == 0 {
            None
        } else {
            Some(package_forbids(files_of(metrics@, package)))
        },
        r.status == detection_status(has_unsafe(r.used), r.forbids_unsafe),
{
    let mut i: usize = 0;
    assert(metrics@.skip(0) =~= metrics@);
    while i < metrics.len()
        invariant
            i <= metrics@.len(),
            files_of(metrics@, package) == files_of(metrics@.skip(i as int), package),
        decreases metrics@.len() - i,
    {
        assert(metrics@.skip(i as int).drop_first() =~= metrics@.skip(i + 1));
        if metrics[i].package == package {
            return summarize_package(&metrics[i].files, rs_files_used);
        }
        i = i + 1;
    }
    let none: Vec<ScannedFile> = Vec::new();
    summarize_package(&none, rs_files_used)
}

/// The path was scanned for some package.
pub open spec fn scanned(path: Seq<char>, metrics: Seq<PackageMetrics>) -> bool {
    exists|i: int, j: int|
        0 <= i < metrics.len() && 0 <= j < metrics[i].files@.len() && (#[trigger] metrics[i].files@[j]).path@ == path
}

/// The used paths, in order, that no package's scan covered.
pub open spec fn unscanned(used: Seq<String>, metrics: Seq<PackageMetrics>) -> Seq<Seq<char>>
    decreases used.len(),
{
    if used.len() == 0 {
        Seq::empty()
    } else if scanned(used.last()@, metrics) {
        unscanned(used.drop_last(), metrics)
    } else {
        unscanned(used.drop_last(), metrics).push(used.last()@)
    }
}

fn is_scanned(path: &String, metrics: &Vec<PackageMetrics>) -> (r: bool)
    ensures
        r == scanned(path@, metrics@),
{
    let mut i: usize = 0;
    while i < metrics.len()
        invariant
            i <= metrics@.len(),
            forall|i2: int, j: int|
                0 <= i2 < i && 0 <= j < metrics@[i2].files@.len() ==> (#[trigger] metrics@[i2].files@[j]).path@ != path@,
        decreases metrics@.len() - i,
    {
        let files = &metrics[i].files;
        let mut j: usize = 0;
        while j < files.len()
            invariant
                i < metrics@.len(),
                files == metrics@[i as int].files,
                j <= files@.len(),
                forall|i2: int, j2: int|
                    0 <= i2 < i && 0 <= j2 < metrics@[i2].files@.len() ==> (#[trigger] metrics@[i2].files@[j2]).path@
                        != path@,
                forall|j2: int| 0 <= j2 < j ==> (#[trigger] files@[j2]).path@ != path@,
            decreases files@.len() - j,
        {
            if str_eq(files[j].path.as_str(), path.as_str()) {
                return true;
            }
            j = j + 1;
        }
        i = i + 1;
    }
    false
}

/// The files that the build uses but that no scan covered, in the order of
/// the used-files list. Each one is a warning.
pub fn list_files_used_but_not_scanned(metrics: &Vec<PackageMetrics>, rs_files_used: &Vec<String>) -> (r: Vec<
    String,
>)
    ensures
        r@.map_values(|s: String| s@) == unscanned(rs_files_used@, metrics@),
{
    let mut out: Vec<String> = Vec::new();
    let mut i: usize = 0;
    while i < rs_files_used.len()
        invariant
            i <= rs_files_used@.len(),
            out@.map_values(|s: String| s@) == unscanned(rs_files_used@.take(i as int), metrics@),
        decreases rs_files_used@.len() - i,
    {
        let ghost before = out@;
        proof {
            assert(rs_files_used@.take(i + 1).drop_last() =~= rs_files_used@.take(i as int));
        }
        if !is_scanned(&rs_files_used[i], metrics) {
            out.push(rs_files_used[i].clone());
            proof {
                assert(out@.map_values(|s: String| s@) =~= before.map_values(|s: String| s@).push(rs_files_used@[i as int]@));
            }
        }
        i = i + 1;
    }
    proof {
        assert(rs_files_used@.take(i as int) =~= rs_files_used@);
    }
    out
}

/// The run found this many warnings; it ends with a failure status.
#[derive(Clone, Copy, Debug, PartialEq, Eq, Structural)]
pub struct FoundWarningsError {
    pub warning_count: u64,
}

/// Success when there is no warning, otherwise the error that makes the run
/// exit with a failure status.
pub fn check_warnings(warning_count: u64) -> (r: Result<(), FoundWarningsError>)
    ensures
        warning_count == 0 <==> r is Ok,
        r matches Err(e) ==> e.warning_count == warning_count,
{
    if warning_count > 0 {
        Err(FoundWarningsError { warning_count })
    } else {
        Ok(())
    }
}

/// The warnings of a run: one per file used by the build and never scanned.
pub fn count_warnings(metrics: &Vec<PackageMetrics>, rs_files_used: &Vec<String>) -> (r: u64)
    ensures
        r == unscanned(rs_files_used@, metrics@).len(),
{
    let missing = list_files_used_but_not_scanned(metrics, rs_files_used);
    proof {
        assert(missing@.map_values(|s: String| s@).len() == missing@.len());
        lemma_unscanned_len(rs_files_used@, metrics@);
    }
    missing.len() as u64
}

proof fn lemma_unscanned_len(used: Seq<String>, metrics: Seq<PackageMetrics>)
    ensures
        unscanned(used, metrics).len() <= used.len(),
    decreases used.len(),
{
    if used.len() > 0 {
        lemma_unscanned_len(used.drop_last(), metrics);
    }
}

/// `x/y` in decimal.
pub fn format_ratio(x: u64, y: u64) -> (r: String)
    ensures
        r@ == decimal(x as nat) + "/"@ + decimal(y as nat),
{
    let mut out = String::new();
    push_decimal(&mut out, x);
    out.append("/");
    push_decimal(&mut out, y);
    out
}

/// `x/y` for the unsafe count of one kind of construct.
pub open spec fn ratio_text(used: Count, total: Count) -> Seq<char> {
    decimal(used.unsafe_ as nat) + "/"@ + decimal(total.unsafe_ as nat)
}

/// The counters part of a table row: for each kind of construct, unsafe
/// occurrences used by the build over those found, in columns as wide as the
/// headers.
pub open spec fn counters_text(used: CounterBlock, total: CounterBlock) -> Seq<char> {
    padded(ratio_text(used.functions, total.functions), 10) + " "@ + padded(ratio_text(used.exprs, total.exprs), 12)
        + " "@ + padded(ratio_text(used.item_impls, total.item_impls), 6) + " "@ + padded(
        ratio_text(used.item_traits, total.item_traits),
        7,
    ) + " "@ + padded(ratio_text(used.methods, total.methods), 8)
}

fn push_ratio_cell(out: &mut String, used: Count, total: Count, width: usize)
    ensures
        final(out)@ == old(out)@ + padded(ratio_text(used, total), width as nat),
{
    let r = format_ratio(used.unsafe_, total.unsafe_);
    let cell = pad_to(r.as_str(), width);
    out.append(cell.as_str());
}

/// Formats the counters part of a table row.
pub fn format_counters(used: &CounterBlock, total: &CounterBlock) -> (r: String)
    ensures
        r@ == counters_text(*used, *total),
{
    let mut out = String::new();
    push_ratio_cell(&mut out, used.functions, total.functions, 10);
    out.append(" ");
    push_ratio_cell(&mut out, used.exprs, total.exprs, 12);
    out.append(" ");
    push_ratio_cell(&mut out, used.item_impls, total.item_impls, 6);
    out.append(" ");
    push_ratio_cell(&mut out, used.item_traits, total.item_traits, 7);
    out.append(" ");
    push_ratio_cell(&mut out, used.methods, total.methods, 8);
    proof {
        assert(out@ =~= counters_text(*used, *total));
    }
    out
}

/// The name of a package as the pattern shows it.
pub fn format_package_name(package: &ResolvedPackage, pattern: &Pattern) -> (r: String)
    ensures
        r@ == pattern_text(
            pattern@,
            package.name@,
            package.version@,
            opt_view(package.license),
            opt_view(package.repository),
        ),
{
    pattern.render(package.name.as_str(), package.version.as_str(), &package.license, &package.repository)
}

/// Rank of a byte in path order: the separator `/` comes before every other
/// byte.
pub open spec fn path_byte_rank(x: u8) -> int {
    if x == 47 {
        0
    } else {
        x as int + 1
    }
}

/// Comparison of paths, -1, 0 or 1, component by component as `Path`
/// compares: with the separator ranked below every other byte, the first
/// differing component decides, and a path that is a prefix of another in
/// whole components comes first (`a/b` before `a-b`, `a` before `a/b`).
pub open spec fn path_cmp(a: Seq<u8>, b: Seq<u8>) -> int
    decreases a.len(),
{
    if a.len() == 0 {
        if b.len() == 0 {
            0
        } else {
            -1
        }
    } else if b.len() == 0 {
        1
    } else if path_byte_rank(a[0]) < path_byte_rank(b[0]) {
        -1
    } else if path_byte_rank(a[0]) > path_byte_rank(b[0]) {
        1
    } else {
        path_cmp(a.drop_first(), b.drop_first())
    }
}

proof fn lemma_path_cmp_antisymmetric(a: Seq<u8>, b: Seq<u8>)
    ensures
        path_cmp(a, b) == -path_cmp(b, a),
    decreases a.len(),
{
    if a.len() > 0 && b.len() > 0 && path_byte_rank(a[0]) == path_byte_rank(b[0]) {
        lemma_path_cmp_antisymmetric(a.drop_first(), b.drop_first());
    }
}

fn compare_path_bytes(a: &[u8], b: &[u8]) -> (r: i8)
    ensures
        r as int == path_cmp(a@, b@),
{
    let mut i: usize = 0;
    assert(a@.skip(0) =~= a@ && b@.skip(0) =~= b@);
    while i < a.len() && i < b.len()
        invariant
            i <= a@.len(),
            i <= b@.len(),
            path_cmp(a@, b@) == path_cmp(a@.skip(i as int), b@.skip(i as int)),
        decreases a@.len() - i,
    {
        assert(a@.skip(i as int).drop_first() =~= a@.skip(i + 1));
        assert(b@.skip(i as int).drop_first() =~= b@.skip(i + 1));
        let x: u16 = if a[i] == 47 { 0 } else { a[i] as u16 + 1 };
        let y: u16 = if b[i] == 47 { 0 } else { b[i] as u16 + 1 };
        if x < y {
            return -1;
        } else if x > y {
            return 1;
        }
        i = i + 1;
    }
    if i < a.len() {
        1
    } else if i < b.len() {
        -1
    } else {
        0
    }
}

/// Paths in path order.
pub open spec fn paths_sorted(s: Seq<Seq<char>>) -> bool {
    forall|i: int| 0 <= i && i + 1 < s.len() ==> path_cmp(encode_utf8(#[trigger] s[i]), encode_utf8(s[i + 1])) <= 0
}

/// The characters of each string.
pub open spec fn views(s: Seq<String>) -> Seq<Seq<char>> {
    s.map_values(|x: String| x@)
}

fn compare_paths(a: &String, b: &String) -> (r: i8)
    ensures
        r as int == path_cmp(encode_utf8(a@), encode_utf8(b@)),
{
    compare_path_bytes(a.as_str().as_bytes(), b.as_str().as_bytes())
}

/// The paths in path order; equal paths keep their order.
pub fn sort_paths(input: &Vec<String>) -> (r: Vec<String>)
    ensures
        views(r@).to_multiset() == views(input@).to_multiset(),
        paths_sorted(views(r@)),
{
    broadcast use vstd::seq_lib::group_to_multiset_ensures;

    let mut out: Vec<String> = Vec::new();
    let mut i: usize = 0;
    while i < input.len()
        invariant
            i <= input@.len(),
            views(out@).to_multiset() == views(input@.take(i as int)).to_multiset(),
            paths_sorted(views(out@)),
        decreases input@.len() - i,
    {
        let x = input[i].clone();
        let mut pos = out.len();
        while pos > 0 && compare_paths(&out[pos - 1], &x) > 0
            invariant
                pos <= out@.len(),
                x@ == input@[i as int]@,
                forall|q: int|
                    pos <= q < out@.len() ==> path_cmp(encode_utf8((#[trigger] out@[q])@), encode_utf8(x@)) > 0,
            decreases pos,
        {
            pos = pos - 1;
        }
        let ghost old_out = out@;
        let ghost xv = x@;
        out.insert(pos, x);
        proof {
            assert(views(input@.take(i + 1)) =~= views(input@.take(i as int)).push(xv));
            assert(views(out@) =~= views(old_out).insert(pos as int, xv));
            vstd::seq_lib::to_multiset_insert(views(old_out), pos as int, xv);
            vstd::seq_lib::to_multiset_build(views(input@.take(i as int)), xv);
            let ov = views(out@);
            assert forall|k: int| 0 <= k && k + 1 < ov.len() implies path_cmp(
                encode_utf8(#[trigger] ov[k]),
                encode_utf8(ov[k + 1]),
            ) <= 0 by {
                if k + 1 < pos {
                    assert(out@[k] == old_out[k] && out@[k + 1] == old_out[k + 1]);
                } else if k + 1 == pos {
                    assert(out@[k] == old_out[k]);
                } else if k == pos {
                    lemma_path_cmp_antisymmetric(encode_utf8(xv), encode_utf8(old_out[k]@));
                    assert(out@[k + 1] == old_out[k]);
                } else {
                    assert(out@[k] == old_out[k - 1] && out@[k + 1] == old_out[k]);
                }
            }
        }
        i = i + 1;
    }
    proof {
        assert(input@.take(i as int) =~= input@);
    }
    out
}

/// The lines that list the files used by the build, in sorted order.
pub fn construct_rs_files_used_lines(rs_files_used: &Vec<String>) -> (r: Vec<String>)
    ensures
        exists|s: Seq<Seq<char>>|
            s.to_multiset() == views(rs_files_used@).to_multiset() && paths_sorted(s) && r@.len() == s.len()
                && forall|i: int| 0 <= i < s.len() ==> (#[trigger] r@[i])@ == "Used by build (sorted): "@ + s[i],
{
    let sorted = sort_paths(rs_files_used);
    let mut lines: Vec<String> = Vec::new();
    let mut i: usize = 0;
    while i < sorted.len()
        invariant
            i <= sorted@.len(),
            lines@.len() == i,
            forall|k: int| 0 <= k < i ==> (#[trigger] lines@[k])@ == "Used by build (sorted): "@ + sorted@[k]@,
        decreases sorted@.len() - i,
    {
        let mut line = String::from_str("Used by build (sorted): ");
        line.append(sorted[i].as_str());
        lines.push(line);
        i = i + 1;
    }
    assert(views(sorted@).len() == lines@.len());
    lines
}

} // verus!
