use vstd::prelude::*;
use vstd::utf8::encode_utf8;
use crate::format::{Charset, Prefix};
use crate::graph::{edges_by_endpoint, edges_within, far_end, listed, near_end, PackageGraph, ResolvedPackage};
use crate::kind::DepKind;
use crate::sums::{count_true, lemma_count_true_le_len, lemma_count_true_set};

verus! {

broadcast use vstd::seq_lib::group_to_multiset_ensures;

/// Lexicographic comparison of byte strings: -1, 0 or 1.
pub open spec fn bytes_cmp(a: Seq<u8>, b: Seq<u8>) -> int
    decreases a.len(),
{
    if a.len() == 0 {
        if b.len() == 0 {
            0
        } else {
            -1
        }
    } else if b.len() == 0 {
        1
    } else if a[0] < b[0] {
        -1
    } else if a[0] > b[0] {
        1
    } else {
        bytes_cmp(a.drop_first(), b.drop_first())
    }
}

pub(crate) proof fn lemma_bytes_cmp_antisymmetric(a: Seq<u8>, b: Seq<u8>)
    ensures
        bytes_cmp(a, b) == -bytes_cmp(b, a),
        -1 <= bytes_cmp(a, b) <= 1,
    decreases a.len(),
{
    if a.len() > 0 && b.len() > 0 && a[0] == b[0] {
        lemma_bytes_cmp_antisymmetric(a.drop_first(), b.drop_first());
    }
}

/// Order of packages in the tree: by name, then by version, as strings compare.
pub open spec fn package_cmp(p: ResolvedPackage, q: ResolvedPackage) -> int {
    let c = bytes_cmp(encode_utf8(p.name@), encode_utf8(q.name@));
    if c != 0 {
        c
    } else {
        bytes_cmp(encode_utf8(p.version@), encode_utf8(q.version@))
    }
}

proof fn lemma_package_cmp_antisymmetric(p: ResolvedPackage, q: ResolvedPackage)
    ensures
        package_cmp(p, q) == -package_cmp(q, p),
{
    lemma_bytes_cmp_antisymmetric(encode_utf8(p.name@), encode_utf8(q.name@));
    lemma_bytes_cmp_antisymmetric(encode_utf8(p.version@), encode_utf8(q.version@));
}

pub(crate) fn compare_bytes(a: &[u8], b: &[u8]) -> (r: i8)
    ensures
        r as int == bytes_cmp(a@, b@),
{
    let mut i: usize = 0;
    assert(a@.skip(0) =~= a@ && b@.skip(0) =~= b@);
    while i < a.len() && i < b.len()
        invariant
            i <= a@.len(),
            i <= b@.len(),
            bytes_cmp(a@, b@) == bytes_cmp(a@.skip(i as int), b@.skip(i as int)),
        decreases a@.len() - i,
    {
        assert(a@.skip(i as int).drop_first() =~= a@.skip(i + 1));
        assert(b@.skip(i as int).drop_first() =~= b@.skip(i + 1));
        if a[i] < b[i] {
            return -1;
        } else if a[i] > b[i] {
            return 1;
        }
        i = i + 1;
    }
    if i < a.len() {
        1
    } else if i < b.len() {
        -1
    } else {
        0
    }
}

/// Compares two packages by name, then version.
pub fn compare_packages(p: &ResolvedPackage, q: &ResolvedPackage) -> (r: i8)
    ensures
        r as int == package_cmp(*p, *q),
{
    let c = compare_bytes(p.name.as_str().as_bytes(), q.name.as_str().as_bytes());
    if c != 0 {
        c
    } else {
        compare_bytes(p.version.as_str().as_bytes(), q.version.as_str().as_bytes())
    }
}

/// Nodes `s` are in package order, as `ps` maps nodes to packages.
pub open spec fn nodes_sorted(s: Seq<usize>, ps: Seq<usize>, packages: Seq<ResolvedPackage>) -> bool {
    forall|i: int|
        0 <= i && i + 1 < s.len() ==> package_cmp(
            packages[ps[#[trigger] s[i] as int] as int],
            packages[ps[s[i + 1] as int] as int],
        ) <= 0
}

/// Sorts nodes by the name and version of their packages; equal keys keep
/// their order.
fn sort_nodes(input: &Vec<usize>, ps: &Vec<usize>, packages: &Vec<ResolvedPackage>) -> (r: Vec<usize>)
    requires
        forall|i: int| 0 <= i < input@.len() ==> #[trigger] input@[i] < ps@.len(),
        forall|k: int| 0 <= k < ps@.len() ==> #[trigger] ps@[k] < packages@.len(),
    ensures
        r@.to_multiset() == input@.to_multiset(),
        nodes_sorted(r@, ps@, packages@),
{
    let mut out: Vec<usize> = Vec::new();
    let mut i: usize = 0;
    while i < input.len()
        invariant
            i <= input@.len(),
            forall|i2: int| 0 <= i2 < input@.len() ==> #[trigger] input@[i2] < ps@.len(),
            forall|k: int| 0 <= k < ps@.len() ==> #[trigger] ps@[k] < packages@.len(),
            out@.to_multiset() == input@.take(i as int).to_multiset(),
            forall|q: int| 0 <= q < out@.len() ==> #[trigger] out@[q] < ps@.len(),
            nodes_sorted(out@, ps@, packages@),
        decreases input@.len() - i,
    {
        let x = input[i];
        let px = &packages[ps[x]];
        let mut pos = out.len();
        while pos > 0 && compare_packages(&packages[ps[out[pos - 1]]], px) > 0
            invariant
                pos <= out@.len(),
                x < ps@.len(),
                *px == packages@[ps@[x as int] as int],
                forall|k: int| 0 <= k < ps@.len() ==> #[trigger] ps@[k] < packages@.len(),
                forall|q: int| 0 <= q < out@.len() ==> #[trigger] out@[q] < ps@.len(),
                forall|q: int|
                    pos <= q < out@.len() ==> package_cmp(packages@[ps@[#[trigger] out@[q] as int] as int], *px) > 0,
            decreases pos,
        {
            pos = pos - 1;
        }
        let ghost old_out = out@;
        out.insert(pos, x);
        proof {
            assert(input@.take(i + 1) =~= input@.take(i as int).push(x));
            assert forall|k: int|
                0 <= k && k + 1 < out@.len() implies package_cmp(
                packages@[ps@[#[trigger] out@[k] as int] as int],
                packages@[ps@[out@[k + 1] as int] as int],
            ) <= 0 by {
                if k + 1 < pos {
                    assert(out@[k] == old_out[k] && out@[k + 1] == old_out[k + 1]);
                } else if k + 1 == pos {
                    assert(out@[k] == old_out[k]);
                } else if k == pos {
                    lemma_package_cmp_antisymmetric(*px, packages@[ps@[old_out[k] as int] as int]);
                    assert(out@[k + 1] == old_out[k]);
                } else {
                    assert(out@[k] == old_out[k - 1] && out@[k + 1] == old_out[k]);
                }
            }
        }
        i = i + 1;
    }
    proof {
        assert(input@.take(i as int) =~= input@);
    }
    out
}


/// Decimal digit `d` as a character.
pub open spec fn digit_char(d: nat) -> char {
    if d == 0 {
        '0'
    } else if d == 1 {
        '1'
    } else if d == 2 {
        '2'
    } else if d == 3 {
        '3'
    } else if d == 4 {
        '4'
    } else if d == 5 {
        '5'
    } else if d == 6 {
        '6'
    } else if d == 7 {
        '7'
    } else if d == 8 {
        '8'
    } else {
        '9'
    }
}

/// Decimal notation of `n`.
pub open spec fn decimal(n: nat) -> Seq<char>
    decreases n,
{
    if n < 10 {
        seq![digit_char(n)]
    } else {
        decimal(n / 10) + seq![digit_char(n % 10)]
    }
}

fn digit_str(d: u64) -> (r: &'static str)
    requires
        d < 10,
    ensures
        r@ == seq![digit_char(d as nat)],
{
    proof {
        reveal_strlit("0");
        reveal_strlit("1");
        reveal_strlit("2");
        reveal_strlit("3");
        reveal_strlit("4");
        reveal_strlit("5");
        reveal_strlit("6");
        reveal_strlit("7");
        reveal_strlit("8");
        reveal_strlit("9");
    }
    let r = if d == 0 {
        "0"
    } else if d == 1 {
        "1"
    } else if d == 2 {
        "2"
    } else if d == 3 {
        "3"
    } else if d == 4 {
        "4"
    } else if d == 5 {
        "5"
    } else if d == 6 {
        "6"
    } else if d == 7 {
        "7"
    } else if d == 8 {
        "8"
    } else {
        "9"
    };
    assert(r@ =~= seq![digit_char(d as nat)]);
    r
}

/// Appends the decimal notation of `n` to `out`.
pub fn push_decimal(out: &mut String, n: u64)
    ensures
        final(out)@ == old(out)@ + decimal(n as nat),
    decreases n,
{
    if n >= 10 {
        push_decimal(out, n / 10);
    }
    out.append(digit_str(n % 10));
    proof {
        if n >= 10 {
            assert(final(out)@ =~= old(out)@ + decimal(n as nat));
        } else {
            assert(n % 10 == n);
        }
    }
}

/// Vertical bar of the tree art.
pub open spec fn down_sym(c: Charset) -> Seq<char> {
    if c == Charset::Utf8 {
        "│"@
    } else {
        "|"@
    }
}

/// Branch to a child that has later siblings.
pub open spec fn tee_sym(c: Charset) -> Seq<char> {
    if c == Charset::Utf8 {
        "├"@
    } else {
        "|"@
    }
}

/// Branch to the last child.
pub open spec fn ell_sym(c: Charset) -> Seq<char> {
    if c == Charset::Utf8 {
        "└"@
    } else {
        "`"@
    }
}

/// Horizontal stroke of a branch.
pub open spec fn right_sym(c: Charset) -> Seq<char> {
    if c == Charset::Utf8 {
        "─"@
    } else {
        "-"@
    }
}

/// Vines for the levels above a line: a bar where the level has more siblings
/// to come, blank otherwise.
pub open spec fn level_vines(levels: Seq<bool>, c: Charset) -> Seq<char>
    decreases levels.len(),
{
    if levels.len() == 0 {
        Seq::empty()
    } else {
        level_vines(levels.drop_last(), c) + (if levels.last() {
            down_sym(c)
        } else {
            " "@
        }) + "   "@
    }
}

/// Indented prefix of a package line: the vines of the outer levels, then a
/// branch that is a tee when more siblings follow and an ell otherwise.
pub open spec fn indent_vines(levels: Seq<bool>, c: Charset) -> Seq<char> {
    if levels.len() == 0 {
        Seq::empty()
    } else {
        level_vines(levels.drop_last(), c) + (if levels.last() {
            tee_sym(c)
        } else {
            ell_sym(c)
        }) + right_sym(c) + right_sym(c) + " "@
    }
}

/// Prefix of a package line at the depth that `levels` describes.
pub open spec fn line_prefix(levels: Seq<bool>, prefix: Prefix, c: Charset) -> Seq<char> {
    match prefix {
        Prefix::Depth => decimal(levels.len()) + " "@,
        Prefix::Indent => indent_vines(levels, c),
        Prefix::NoIndent => Seq::empty(),
    }
}

fn push_level_vines(out: &mut String, levels: &Vec<bool>, upto: usize, c: Charset)
    requires
        upto <= levels@.len(),
    ensures
        final(out)@ == old(out)@ + level_vines(levels@.take(upto as int), c),
{
    let mut i: usize = 0;
    while i < upto
        invariant
            i <= upto <= levels@.len(),
            out@ == old(out)@ + level_vines(levels@.take(i as int), c),
        decreases upto - i,
    {
        if levels[i] {
            out.append(if c == Charset::Utf8 { "│" } else { "|" });
        } else {
            out.append(" ");
        }
        out.append("   ");
        proof {
            assert(levels@.take(i + 1).drop_last() =~= levels@.take(i as int));
            assert(out@ =~= old(out)@ + level_vines(levels@.take(i + 1), c));
        }
        i = i + 1;
    }
}

/// The prefix of a package line for the given levels and style.
pub fn line_vines(levels: &Vec<bool>, prefix: Prefix, c: Charset) -> (r: String)
    ensures
        r@ == line_prefix(levels@, prefix, c),
{
    let mut out = String::new();
    match prefix {
        Prefix::Depth => {
            push_decimal(&mut out, levels.len() as u64);
            out.append(" ");
        },
        Prefix::Indent => {
            let n = levels.len();
            if n > 0 {
                push_level_vines(&mut out, levels, n - 1, c);
                proof {
                    assert(levels@.take(n - 1) =~= levels@.drop_last());
                }
                if levels[n - 1] {
                    out.append(if c == Charset::Utf8 { "├" } else { "|" });
                } else {
                    out.append(if c == Charset::Utf8 { "└" } else { "`" });
                }
                let right = if c == Charset::Utf8 { "─" } else { "-" };
                out.append(right);
                out.append(right);
                out.append(" ");
            }
        },
        Prefix::NoIndent => {},
    }
    proof {
        assert(out@ =~= line_prefix(levels@, prefix, c));
    }
    out
}

/// The prefix of a group header under the given levels.
pub fn group_vines(levels: &Vec<bool>, c: Charset) -> (r: String)
    ensures
        r@ == level_vines(levels@, c),
{
    let mut out = String::new();
    push_level_vines(&mut out, levels, levels.len(), c);
    proof {
        assert(levels@.take(levels@.len() as int) =~= levels@);
        assert(out@ =~= level_vines(levels@, c));
    }
    out
}


/// How a package line relates to the rest of the tree.
#[derive(Clone, Copy, Debug, PartialEq, Eq, Structural)]
pub enum LineMark {
    /// The package's dependencies follow below it.
    Expanded,
    /// The package was already printed in full; its subtree is not repeated.
    Repeated,
    /// The package is on the path from the root to here: a cycle, not descended.
    Cycle,
}

/// One line of the dependency tree.
#[derive(Debug)]
pub enum TextTreeLine {
    /// A package, by its index in the resolved set, at `depth` below the root.
    Package { id: usize, tree_vines: String, mark: LineMark, depth: usize },
    /// A header such as `[build-dependencies]` before the children reached
    /// through edges of that kind; `depth` is theirs.
    ExtraDepsGroup { kind: DepKind, tree_vines: String, depth: usize },
}

/// Which way edges are followed.
#[derive(Clone, Copy, Debug, PartialEq, Eq, Structural)]
pub enum Direction {
    /// From a package to its dependencies.
    Dependencies,
    /// From a package to the packages that depend on it.
    Dependents,
}

/// Display settings of the walk.
#[derive(Clone, Copy, Debug, PartialEq, Eq, Structural)]
pub struct WalkConfig {
    /// Expand every occurrence of a package, not only the first.
    pub all: bool,
    pub direction: Direction,
    pub prefix: Prefix,
    pub charset: Charset,
}

/// `l` is the line that expands package `p`.
pub open spec fn expanded_line(l: TextTreeLine, p: usize) -> bool {
    l matches TextTreeLine::Package { id, mark, .. } && id == p && mark == LineMark::Expanded
}

/// Depth of a line below the root.
pub open spec fn line_depth(l: TextTreeLine) -> nat {
    match l {
        TextTreeLine::Package { depth, .. } => depth as nat,
        TextTreeLine::ExtraDepsGroup { depth, .. } => depth as nat,
    }
}

/// A package line that is not expanded: a repeat or a cycle.
pub open spec fn leaf_line(l: TextTreeLine) -> bool {
    l matches TextTreeLine::Package { mark, .. } && mark != LineMark::Expanded
}

/// Nothing stands beneath a repeated or cycle line: the next line is no deeper.
pub open spec fn nothing_beneath_leaves(out: Seq<TextTreeLine>) -> bool {
    forall|i: int| 0 <= i && i + 1 < out.len() && #[trigger] leaf_line(out[i]) ==> line_depth(out[i + 1]) <= line_depth(out[i])
}

/// The package of a line, or 0 for a header.
pub open spec fn line_id(l: TextTreeLine) -> usize {
    match l {
        TextTreeLine::Package { id, .. } => id,
        TextTreeLine::ExtraDepsGroup { .. } => 0,
    }
}

/// Every cycle line follows a line that expands the same package.
pub open spec fn cycles_backed(out: Seq<TextTreeLine>) -> bool {
    forall|i: int|
        0 <= i < out.len() && (#[trigger] out[i] matches TextTreeLine::Package { mark: LineMark::Cycle, .. }) ==> exists|
            j: int,
        | 0 <= j < i && #[trigger] expanded_line(out[j], line_id(out[i]))
}

/// A line of depth `d` may follow the last line of `out`.
pub open spec fn tail_allows(out: Seq<TextTreeLine>, d: nat) -> bool {
    out.len() == 0 || !leaf_line(out.last()) || line_depth(out.last()) >= d
}

proof fn lemma_push_line(a: Seq<TextTreeLine>, l: TextTreeLine)
    requires
        nothing_beneath_leaves(a),
        cycles_backed(a),
        tail_allows(a, line_depth(l)),
        l matches TextTreeLine::Package { mark: LineMark::Cycle, .. } ==> shown(a, line_id(l)),
    ensures
        nothing_beneath_leaves(a.push(l)),
        cycles_backed(a.push(l)),
{
    let b = a.push(l);
    assert forall|i: int| 0 <= i && i + 1 < b.len() && #[trigger] leaf_line(b[i]) implies line_depth(b[i + 1]) <= line_depth(
        b[i],
    ) by {
        assert(b[i] == a[i]);
        if i + 1 < a.len() {
            assert(b[i + 1] == a[i + 1]);
        }
    }
    assert forall|i: int|
        0 <= i < b.len() && (#[trigger] b[i] matches TextTreeLine::Package { mark: LineMark::Cycle, .. }) implies exists|
        j: int,
    | 0 <= j < i && #[trigger] expanded_line(b[j], line_id(b[i])) by {
        if i < a.len() {
            assert(b[i] == a[i]);
            let j = choose|j: int| 0 <= j < i && #[trigger] expanded_line(a[j], line_id(a[i]));
            assert(b[j] == a[j]);
        } else {
            let j = choose|j: int| 0 <= j < a.len() && #[trigger] expanded_line(a[j], line_id(l));
            assert(b[j] == a[j]);
        }
    }
}

/// Every line of `out` after `i` is deeper than `d`.
pub open spec fn deeper_after(out: Seq<TextTreeLine>, i: int, d: nat) -> bool {
    forall|k: int| i < k < out.len() ==> line_depth(#[trigger] out[k]) > d
}

/// Lines `i` and `j` are package lines of equal depth with only deeper lines
/// between them: consecutive children of one parent, in one group.
pub open spec fn siblings(out: Seq<TextTreeLine>, i: int, j: int) -> bool {
    &&& 0 <= i < j < out.len()
    &&& out[i] is Package
    &&& out[j] is Package
    &&& line_depth(out[i]) == line_depth(out[j])
    &&& forall|k: int| i < k < j ==> line_depth(#[trigger] out[k]) > line_depth(out[i])
}

/// Consecutive children of a parent, in one group, come in package order.
pub open spec fn siblings_sorted(out: Seq<TextTreeLine>, packages: Seq<ResolvedPackage>) -> bool {
    forall|i: int, j: int|
        #[trigger] siblings(out, i, j) ==> package_cmp(packages[line_id(out[i]) as int], packages[line_id(out[j]) as int])
            <= 0
}

/// A package line for `p` at depth `d` may be appended to `out` in package
/// order: the sibling it would follow, if any, is not after it.
pub open spec fn may_follow(out: Seq<TextTreeLine>, d: nat, p: usize, packages: Seq<ResolvedPackage>) -> bool {
    forall|i: int|
        0 <= i < out.len() && (#[trigger] out[i]) is Package && line_depth(out[i]) == d && deeper_after(out, i, d)
            ==> package_cmp(packages[line_id(out[i]) as int], packages[p as int]) <= 0
}

proof fn lemma_push_sorted(a: Seq<TextTreeLine>, l: TextTreeLine, packages: Seq<ResolvedPackage>)
    requires
        siblings_sorted(a, packages),
        l is Package ==> may_follow(a, line_depth(l), line_id(l), packages),
    ensures
        siblings_sorted(a.push(l), packages),
{
    let b = a.push(l);
    assert forall|i: int, j: int| #[trigger] siblings(b, i, j) implies package_cmp(
        packages[line_id(b[i]) as int],
        packages[line_id(b[j]) as int],
    ) <= 0 by {
        assert(b[i] == a[i]);
        if j < a.len() {
            assert(b[j] == a[j]);
            assert forall|k: int| i < k < j implies line_depth(#[trigger] a[k]) > line_depth(a[i]) by {
                assert(b[k] == a[k]);
            }
            assert(siblings(a, i, j));
        } else {
            assert(b[j] == l);
            assert forall|k: int| i < k < a.len() implies line_depth(#[trigger] a[k]) > line_depth(l) by {
                assert(b[k] == a[k]);
            }
            assert(deeper_after(a, i, line_depth(l)));
        }
    }
}

proof fn lemma_may_follow_first(out: Seq<TextTreeLine>, d: nat, p: usize, packages: Seq<ResolvedPackage>)
    requires
        out.len() > 0,
        line_depth(out.last()) <= d,
        !(out.last() is Package && line_depth(out.last()) == d),
    ensures
        may_follow(out, d, p, packages),
{
    assert forall|i: int|
        0 <= i < out.len() && (#[trigger] out[i]) is Package && line_depth(out[i]) == d && deeper_after(out, i, d)
            implies package_cmp(packages[line_id(out[i]) as int], packages[p as int]) <= 0 by {
        if i < out.len() - 1 {
            assert(line_depth(out[out.len() - 1]) > d);
        }
    }
}

proof fn lemma_may_follow_prev(out: Seq<TextTreeLine>, d: nat, prev: int, p: usize, packages: Seq<ResolvedPackage>)
    requires
        0 <= prev < out.len(),
        out[prev] is Package,
        line_depth(out[prev]) == d,
        deeper_after(out, prev, d),
        package_cmp(packages[line_id(out[prev]) as int], packages[p as int]) <= 0,
    ensures
        may_follow(out, d, p, packages),
{
    assert forall|i: int|
        0 <= i < out.len() && (#[trigger] out[i]) is Package && line_depth(out[i]) == d && deeper_after(out, i, d)
            implies package_cmp(packages[line_id(out[i]) as int], packages[p as int]) <= 0 by {
        if i < prev {
            assert(line_depth(out[prev]) > d);
        } else if i > prev {
            assert(line_depth(out[i]) > d);
        }
    }
}

/// Every package on the path has been expanded.
pub open spec fn path_shown(out: Seq<TextTreeLine>, ps: Seq<usize>, on_path: Seq<bool>) -> bool {
    forall|u: int| 0 <= u < ps.len() && #[trigger] on_path[u] ==> shown(out, ps[u])
}

/// The lines of `out` from `from` on are at depth `d` or deeper.
pub open spec fn deep_from(out: Seq<TextTreeLine>, from: int, d: nat) -> bool {
    forall|i: int| from <= i < out.len() ==> line_depth(#[trigger] out[i]) >= d
}

/// Package `p` is expanded somewhere in `out`.
pub open spec fn shown(out: Seq<TextTreeLine>, p: usize) -> bool {
    exists|i: int| 0 <= i < out.len() && #[trigger] expanded_line(out[i], p)
}

/// No package is expanded twice.
pub open spec fn expanded_once(out: Seq<TextTreeLine>) -> bool {
    forall|i: int, j: int, p: usize|
        0 <= i < j < out.len() && #[trigger] expanded_line(out[i], p) ==> !#[trigger] expanded_line(out[j], p)
}

/// Every package line names a package below `m`.
pub open spec fn ids_within(out: Seq<TextTreeLine>, m: nat) -> bool {
    forall|i: int| 0 <= i < out.len() ==> (#[trigger] out[i] matches TextTreeLine::Package { id, .. } ==> id < m)
}

/// One step of the walk: some edge leads from `a` to `b`.
pub open spec fn step(es: Seq<(usize, usize, DepKind)>, incoming: bool, a: usize, b: usize) -> bool {
    exists|e: int| 0 <= e < es.len() && near_end(#[trigger] es[e], incoming) == a && far_end(es[e], incoming) == b
}

/// `path` follows edges of `es`.
pub open spec fn walk_path(es: Seq<(usize, usize, DepKind)>, incoming: bool, path: Seq<usize>) -> bool {
    forall|i: int| 0 <= i && i + 1 < path.len() ==> step(es, incoming, #[trigger] path[i], path[i + 1])
}

/// Node `to` can be reached from node `from` by following edges.
pub open spec fn reachable(es: Seq<(usize, usize, DepKind)>, incoming: bool, from: usize, to: usize) -> bool {
    exists|path: Seq<usize>|
        #[trigger] walk_path(es, incoming, path) && path.len() >= 1 && path[0] == from && path.last() == to
}

/// A package line names the package of a node reachable from `from`.
pub open spec fn line_reachable(
    l: TextTreeLine,
    es: Seq<(usize, usize, DepKind)>,
    incoming: bool,
    from: usize,
    ps: Seq<usize>,
) -> bool {
    l matches TextTreeLine::Package { id, .. } ==> exists|u: usize|
        u < ps.len() && #[trigger] reachable(es, incoming, from, u) && ps[u as int] == id
}

/// Every package line names a package reachable from `from`.
pub open spec fn lines_reachable(
    out: Seq<TextTreeLine>,
    es: Seq<(usize, usize, DepKind)>,
    incoming: bool,
    from: usize,
    ps: Seq<usize>,
) -> bool {
    forall|i: int| 0 <= i < out.len() ==> #[trigger] line_reachable(out[i], es, incoming, from, ps)
}

proof fn lemma_reach_step(es: Seq<(usize, usize, DepKind)>, incoming: bool, from: usize, v: usize, c: usize)
    requires
        reachable(es, incoming, from, v),
        step(es, incoming, v, c),
    ensures
        reachable(es, incoming, from, c),
{
    let path = choose|path: Seq<usize>|
        #[trigger] walk_path(es, incoming, path) && path.len() >= 1 && path[0] == from && path.last() == v;
    let p2 = path.push(c);
    assert forall|i: int| 0 <= i && i + 1 < p2.len() implies step(es, incoming, #[trigger] p2[i], p2[i + 1]) by {
        if i + 1 < path.len() {
            assert(p2[i] == path[i] && p2[i + 1] == path[i + 1]);
        }
    }
    assert(walk_path(es, incoming, p2));
}

/// Every edge out of a visited node leads to a visited node or one on the path.
pub open spec fn closed(es: Seq<(usize, usize, DepKind)>, incoming: bool, visited: Seq<bool>, on_path: Seq<bool>) -> bool {
    forall|e: int|
        0 <= e < es.len() && visited[near_end(#[trigger] es[e], incoming) as int] ==> visited[far_end(
            es[e],
            incoming,
        ) as int] || on_path[far_end(es[e], incoming) as int]
}

/// A node neither visited nor on the path has not been expanded.
pub open spec fn clean(out: Seq<TextTreeLine>, ps: Seq<usize>, visited: Seq<bool>, on_path: Seq<bool>) -> bool {
    forall|u: int, i: int|
        0 <= u < ps.len() && !visited[u] && !on_path[u] && 0 <= i < out.len() ==> !#[trigger] expanded_line(
            out[i],
            ps[u],
        )
}

/// Every visited node has been expanded.
pub open spec fn visited_shown(out: Seq<TextTreeLine>, ps: Seq<usize>, visited: Seq<bool>) -> bool {
    forall|u: int| 0 <= u < ps.len() && #[trigger] visited[u] ==> shown(out, ps[u])
}

/// `a` is a prefix of `b`.
pub open spec fn extends(a: Seq<TextTreeLine>, b: Seq<TextTreeLine>) -> bool {
    a.len() <= b.len() && forall|i: int| 0 <= i < a.len() ==> #[trigger] b[i] == a[i]
}

proof fn lemma_shown_extends(a: Seq<TextTreeLine>, b: Seq<TextTreeLine>, p: usize)
    requires
        extends(a, b),
        shown(a, p),
    ensures
        shown(b, p),
{
    let i = choose|i: int| 0 <= i < a.len() && #[trigger] expanded_line(a[i], p);
    assert(b[i] == a[i]);
}

/// Position of a kind among the groups of children: normal, build, development.
pub open spec fn kind_index(k: DepKind) -> nat {
    match k {
        DepKind::Normal => 0,
        DepKind::Build => 1,
        DepKind::Development => 2,
    }
}

/// What the walk works on: the edges, their lists by node, the package of
/// each node, and the settings.
struct Walker<'a> {
    es: Vec<(usize, usize, DepKind)>,
    adj: Vec<Vec<usize>>,
    ps: Vec<usize>,
    packages: &'a Vec<ResolvedPackage>,
    config: WalkConfig,
    incoming: bool,
    root: usize,
}

impl<'a> Walker<'a> {
    spec fn n(&self) -> nat {
        self.ps@.len()
    }

    spec fn inv(&self) -> bool {
        &&& self.n() < u32::MAX
        &&& edges_within(self.es@, self.n())
        &&& self.adj@.len() == self.n()
        &&& forall|a: int, t: int|
            0 <= a < self.n() && 0 <= t < self.adj@[a]@.len() ==> #[trigger] self.adj@[a]@[t] < self.es@.len()
                && near_end(self.es@[self.adj@[a]@[t] as int], self.incoming) == a
        &&& forall|e: int| 0 <= e < self.es@.len() ==> #[trigger] listed(self.adj@, self.es@, e, self.incoming)
        &&& forall|k: int| 0 <= k < self.n() ==> #[trigger] self.ps@[k] < self.packages@.len()
        &&& forall|k1: int, k2: int|
            0 <= k1 < self.n() && 0 <= k2 < self.n() && #[trigger] self.ps@[k1] == #[trigger] self.ps@[k2] ==> k1 == k2
        &&& self.incoming == (self.config.direction == Direction::Dependents)
    }

    /// Nodes reached from `v` through edges of `kind`, in package order.
    fn children_of(&self, v: usize, kind: DepKind) -> (r: Vec<usize>)
        requires
            self.inv(),
            v < self.n(),
        ensures
            forall|t: int| 0 <= t < r@.len() ==> #[trigger] r@[t] < self.n(),
            forall|e: int|
                0 <= e < self.es@.len() && near_end(#[trigger] self.es@[e], self.incoming) == v && self.es@[e].2 == kind
                    ==> r@.contains(far_end(self.es@[e], self.incoming)),
            forall|t: int| 0 <= t < r@.len() ==> step(self.es@, self.incoming, v, #[trigger] r@[t]),
            nodes_sorted(r@, self.ps@, self.packages@),
    {
        let row = &self.adj[v];
        let mut found: Vec<usize> = Vec::new();
        let mut t: usize = 0;
        while t < row.len()
            invariant
                self.inv(),
                v < self.n(),
                row == self.adj@[v as int],
                t <= row@.len(),
                forall|q: int| 0 <= q < found@.len() ==> #[trigger] found@[q] < self.n(),
                forall|q: int| 0 <= q < found@.len() ==> step(self.es@, self.incoming, v, #[trigger] found@[q]),
                forall|t2: int|
                    0 <= t2 < t && self.es@[row@[t2] as int].2 == kind ==> found@.contains(
                        far_end(self.es@[#[trigger] row@[t2] as int], self.incoming),
                    ),
            decreases row@.len() - t,
        {
            let e = row[t];
            let (a, b, k) = self.es[e];
            if k == kind {
                let ghost f0 = found@;
                found.push(if self.incoming { a } else { b });
                proof {
                    assert(found@[f0.len() as int] == far_end(self.es@[e as int], self.incoming));
                    assert forall|q: int| 0 <= q < found@.len() implies step(
                        self.es@,
                        self.incoming,
                        v,
                        #[trigger] found@[q],
                    ) by {
                        if q < f0.len() {
                            assert(found@[q] == f0[q]);
                        } else {
                            assert(near_end(self.es@[e as int], self.incoming) == v);
                        }
                    }
                    assert forall|t2: int|
                        0 <= t2 < t + 1 && self.es@[row@[t2] as int].2 == kind implies found@.contains(
                        far_end(self.es@[#[trigger] row@[t2] as int], self.incoming),
                    ) by {
                        if t2 < t {
                            let w = choose|w: int|
                                0 <= w < f0.len() && f0[w] == far_end(self.es@[row@[t2] as int], self.incoming);
                            assert(found@[w] == f0[w]);
                        }
                    }
                }
            }
            t = t + 1;
        }
        let r = sort_nodes(&found, &self.ps, self.packages);
        proof {
            assert forall|q: int| 0 <= q < r@.len() implies #[trigger] r@[q] < self.n() && step(
                self.es@,
                self.incoming,
                v,
                r@[q],
            ) by {
                assert(r@.to_multiset().count(r@[q]) > 0);
                assert(found@.contains(r@[q]));
                let w = choose|w: int| 0 <= w < found@.len() && found@[w] == r@[q];
                assert(step(self.es@, self.incoming, v, found@[w]));
            }
            assert forall|e: int|
                0 <= e < self.es@.len() && near_end(#[trigger] self.es@[e], self.incoming) == v && self.es@[e].2 == kind
                    implies r@.contains(far_end(self.es@[e], self.incoming)) by {
                assert(listed(self.adj@, self.es@, e, self.incoming));
                let t2 = choose|t2: int|
                    0 <= t2 < self.adj@[v as int]@.len() && #[trigger] self.adj@[v as int]@[t2] == e;
                assert(row@[t2] == e);
                assert(found@.contains(far_end(self.es@[e], self.incoming)));
                assert(found@.to_multiset().count(far_end(self.es@[e], self.incoming)) > 0);
            }
        }
        r
    }

    fn walk_node(
        &self,
        v: usize,
        levels: &mut Vec<bool>,
        visited: &mut Vec<bool>,
        on_path: &mut Vec<bool>,
        out: &mut Vec<TextTreeLine>,
    )
        requires
            self.inv(),
            v < self.n(),
            old(visited)@.len() == self.n(),
            old(on_path)@.len() == self.n(),
            closed(self.es@, self.incoming, old(visited)@, old(on_path)@),
            clean(old(out)@, self.ps@, old(visited)@, old(on_path)@),
            visited_shown(old(out)@, self.ps@, old(visited)@),
            !self.config.all ==> expanded_once(old(out)@),
            ids_within(old(out)@, self.packages@.len()),
            reachable(self.es@, self.incoming, self.root, v),
            lines_reachable(old(out)@, self.es@, self.incoming, self.root, self.ps@),
            nothing_beneath_leaves(old(out)@),
            cycles_backed(old(out)@),
            path_shown(old(out)@, self.ps@, old(on_path)@),
            tail_allows(old(out)@, old(levels)@.len() as nat),
            old(levels)@.len() <= count_true(old(on_path)@),
            siblings_sorted(old(out)@, self.packages@),
            may_follow(old(out)@, old(levels)@.len() as nat, self.ps@[v as int], self.packages@),
        ensures
            siblings_sorted(final(out)@, self.packages@),
            final(out)@.len() > old(out)@.len(),
            final(out)@[old(out)@.len() as int] is Package,
            line_id(final(out)@[old(out)@.len() as int]) == self.ps@[v as int],
            line_depth(final(out)@[old(out)@.len() as int]) == old(levels)@.len(),
            deep_from(final(out)@, (old(out)@.len() + 1) as int, (old(levels)@.len() + 1) as nat),
            lines_reachable(final(out)@, self.es@, self.incoming, self.root, self.ps@),
            nothing_beneath_leaves(final(out)@),
            cycles_backed(final(out)@),
            path_shown(final(out)@, self.ps@, final(on_path)@),
            deep_from(final(out)@, old(out)@.len() as int, old(levels)@.len() as nat),
            final(on_path)@ == old(on_path)@,
            final(levels)@ == old(levels)@,
            final(visited)@.len() == self.n(),
            forall|u: int| 0 <= u < self.n() && #[trigger] old(visited)@[u] ==> final(visited)@[u],
            final(visited)@[v as int] || final(on_path)@[v as int],
            closed(self.es@, self.incoming, final(visited)@, final(on_path)@),
            clean(final(out)@, self.ps@, final(visited)@, final(on_path)@),
            visited_shown(final(out)@, self.ps@, final(visited)@),
            !self.config.all ==> expanded_once(final(out)@),
            ids_within(final(out)@, self.packages@.len()),
            extends(old(out)@, final(out)@),
            !old(on_path)@[v as int] && (self.config.all || !old(visited)@[v as int]) ==> final(out)@.len() > old(
                out,
            )@.len() && expanded_line(final(out)@[old(out)@.len() as int], self.ps@[v as int]) && line_depth(
                final(out)@[old(out)@.len() as int],
            ) == old(levels)@.len(),
        decreases self.n() - count_true(old(on_path)@),
    {
        let p = self.ps[v];
        let vines = line_vines(levels, self.config.prefix, self.config.charset);
        let ghost out0 = out@;
        proof {
            assert(reachable(self.es@, self.incoming, self.root, v) && self.ps@[v as int] == p);
        }
        if on_path[v] {
            proof {
                assert(shown(out0, self.ps@[v as int]));
            }
            out.push(TextTreeLine::Package { id: p, tree_vines: vines, mark: LineMark::Cycle, depth: levels.len() });
            proof {
                self.lemma_push_plain(out0, out@, visited@, on_path@);
                lemma_push_line(out0, out@.last());
                lemma_push_sorted(out0, out@.last(), self.packages@);
                assert(out0.push(out@.last()) =~= out@);
                assert forall|u: int| 0 <= u < self.n() && #[trigger] on_path@[u] implies shown(out@, self.ps@[u]) by {
                    lemma_shown_extends(out0, out@, self.ps@[u]);
                }
            }
            return;
        }
        if visited[v] && !self.config.all {
            out.push(TextTreeLine::Package { id: p, tree_vines: vines, mark: LineMark::Repeated, depth: levels.len() });
            proof {
                self.lemma_push_plain(out0, out@, visited@, on_path@);
                lemma_push_line(out0, out@.last());
                lemma_push_sorted(out0, out@.last(), self.packages@);
                assert(out0.push(out@.last()) =~= out@);
                assert forall|u: int| 0 <= u < self.n() && #[trigger] on_path@[u] implies shown(out@, self.ps@[u]) by {
                    lemma_shown_extends(out0, out@, self.ps@[u]);
                }
            }
            return;
        }
        let ghost visited0 = visited@;
        let ghost path0 = on_path@;
        let ghost levels0 = levels@;
        out.push(TextTreeLine::Package { id: p, tree_vines: vines, mark: LineMark::Expanded, depth: levels.len() });
        let ghost out1 = out@;
        proof {
            lemma_push_line(out0, out1.last());
            lemma_push_sorted(out0, out1.last(), self.packages@);
            assert(out0.push(out1.last()) =~= out1);
            assert forall|u: int| 0 <= u < self.n() && #[trigger] path0.update(v as int, true)[u] implies shown(
                out1,
                self.ps@[u],
            ) by {
                if u == v {
                    assert(expanded_line(out1[out0.len() as int], self.ps@[u]));
                } else {
                    lemma_shown_extends(out0, out1, self.ps@[u]);
                }
            }
            lemma_count_true_set(path0, v as int);
            lemma_count_true_le_len(path0.update(v as int, true));
            assert(expanded_line(out1[out0.len() as int], p));
            assert forall|u: int| 0 <= u < self.n() && #[trigger] visited0[u] implies shown(out1, self.ps@[u]) by {
                lemma_shown_extends(out0, out1, self.ps@[u]);
            }
            assert forall|u: int, i: int|
                0 <= u < self.n() && !visited0[u] && !path0.update(v as int, true)[u] && 0 <= i < out1.len() implies !#[trigger] expanded_line(
                out1[i],
                self.ps@[u],
            ) by {
                if i < out0.len() {
                    assert(out1[i] == out0[i]);
                } else {
                    assert(self.ps@[u] != self.ps@[v as int]);
                }
            }
            if !self.config.all {
                assert forall|i: int, j: int, q: usize|
                    0 <= i < j < out1.len() && #[trigger] expanded_line(out1[i], q) implies !#[trigger] expanded_line(out1[j], q) by {
                    if j == out0.len() {
                        assert(out1[i] == out0[i]);
                        if q == p {
                            assert(!expanded_line(out0[i], self.ps@[v as int]));
                        }
                    } else {
                        assert(out1[i] == out0[i] && out1[j] == out0[j]);
                    }
                }
            }
            assert forall|i: int| 0 <= i < out1.len() implies (#[trigger] out1[i] matches TextTreeLine::Package { id, .. } ==> id
                < self.packages@.len()) by {
                if i < out0.len() {
                    assert(out1[i] == out0[i]);
                }
            }
            assert forall|i: int| 0 <= i < out1.len() implies #[trigger] line_reachable(
                out1[i],
                self.es@,
                self.incoming,
                self.root,
                self.ps@,
            ) by {
                if i < out0.len() {
                    assert(out1[i] == out0[i]);
                }
            }
        }
        on_path.set(v, true);
        let ghost path1 = on_path@;
        let mut ki: usize = 0;
        while ki < 3
            invariant
                self.inv(),
                v < self.n(),
                p == self.ps@[v as int],
                ki <= 3,
                path1 == path0.update(v as int, true),
                path0.len() == self.n(),
                path0 == old(on_path)@,
                on_path@ == path1,
                count_true(path1) == count_true(path0) + 1,
                count_true(path1) <= self.n(),
                levels@ == levels0,
                visited@.len() == self.n(),
                forall|u: int| 0 <= u < self.n() && #[trigger] visited0[u] ==> visited@[u],
                closed(self.es@, self.incoming, visited@, on_path@),
                clean(out@, self.ps@, visited@, on_path@),
                visited_shown(out@, self.ps@, visited@),
                !self.config.all ==> expanded_once(out@),
                ids_within(out@, self.packages@.len()),
                lines_reachable(out@, self.es@, self.incoming, self.root, self.ps@),
                reachable(self.es@, self.incoming, self.root, v),
                extends(out1, out@),
                nothing_beneath_leaves(out@),
                cycles_backed(out@),
                path_shown(out@, self.ps@, on_path@),
                deep_from(out@, (out0.len() + 1) as int, (levels0.len() + 1) as nat),
                tail_allows(out@, levels0.len() + 1),
                siblings_sorted(out@, self.packages@),
                ki == 0 ==> out@ == out1,
                line_depth(out1[out0.len() as int]) == levels0.len(),
                out1[out0.len() as int] is Package,
                out@.len() > out0.len(),
                out@[out0.len() as int] == out1[out0.len() as int],
                levels0.len() <= count_true(path0),
                expanded_line(out1[out0.len() as int], p),
                out1.len() == out0.len() + 1,
                extends(out0, out1),
                forall|e: int|
                    0 <= e < self.es@.len() && near_end(#[trigger] self.es@[e], self.incoming) == v && kind_index(
                        self.es@[e].2,
                    ) < ki ==> visited@[far_end(self.es@[e], self.incoming) as int] || on_path@[far_end(
                        self.es@[e],
                        self.incoming,
                    ) as int],
            decreases 3 - ki,
        {
            let kind = if ki == 0 {
                DepKind::Normal
            } else if ki == 1 {
                DepKind::Build
            } else {
                DepKind::Development
            };
            let children = self.children_of(v, kind);
            if children.len() > 0 {
                if ki > 0 {
                    let ghost o0 = out@;
                    let tree_vines = if self.config.prefix == Prefix::Indent {
                        group_vines(levels, self.config.charset)
                    } else {
                        String::new()
                    };
                    out.push(TextTreeLine::ExtraDepsGroup { kind, tree_vines, depth: levels.len() + 1 });
                    proof {
                        self.lemma_push_plain(o0, out@, visited@, on_path@);
                        lemma_push_line(o0, out@.last());
                        lemma_push_sorted(o0, out@.last(), self.packages@);
                        assert(o0.push(out@.last()) =~= out@);
                        assert forall|u: int| 0 <= u < self.n() && #[trigger] on_path@[u] implies shown(out@, self.ps@[u]) by {
                            lemma_shown_extends(o0, out@, self.ps@[u]);
                        }
                    }
                }
                proof {
                    if ki == 0 {
                        assert(out@.last() == out1[out0.len() as int]);
                    }
                }
                let mut t: usize = 0;
                let ghost mut prev: int = 0;
                while t < children.len()
                    invariant
                        self.inv(),
                        v < self.n(),
                        p == self.ps@[v as int],
                        ki < 3,
                        kind_index(kind) == ki,
                        t <= children@.len(),
                        forall|t2: int| 0 <= t2 < children@.len() ==> #[trigger] children@[t2] < self.n(),
                        path1 == path0.update(v as int, true),
                path0.len() == self.n(),
                path0 == old(on_path)@,
                        on_path@ == path1,
                        count_true(path1) == count_true(path0) + 1,
                        count_true(path1) <= self.n(),
                        levels@ == levels0,
                        visited@.len() == self.n(),
                        forall|u: int| 0 <= u < self.n() && #[trigger] visited0[u] ==> visited@[u],
                        closed(self.es@, self.incoming, visited@, on_path@),
                        clean(out@, self.ps@, visited@, on_path@),
                        visited_shown(out@, self.ps@, visited@),
                        !self.config.all ==> expanded_once(out@),
                        ids_within(out@, self.packages@.len()),
                        lines_reachable(out@, self.es@, self.incoming, self.root, self.ps@),
                        reachable(self.es@, self.incoming, self.root, v),
                        forall|t2: int| 0 <= t2 < children@.len() ==> step(self.es@, self.incoming, v, #[trigger] children@[t2]),
                        extends(out1, out@),
                        nothing_beneath_leaves(out@),
                        cycles_backed(out@),
                        path_shown(out@, self.ps@, on_path@),
                        deep_from(out@, (out0.len() + 1) as int, (levels0.len() + 1) as nat),
                        tail_allows(out@, levels0.len() + 1),
                        siblings_sorted(out@, self.packages@),
                        out@.len() > out0.len(),
                        out@[out0.len() as int] == out1[out0.len() as int],
                        line_depth(out1[out0.len() as int]) == levels0.len(),
                        nodes_sorted(children@, self.ps@, self.packages@),
                        t == 0 ==> line_depth(out@.last()) <= levels0.len() + 1 && !(out@.last() is Package
                            && line_depth(out@.last()) == levels0.len() + 1),
                        t > 0 ==> 0 <= prev < out@.len() && out@[prev] is Package && line_id(out@[prev])
                            == self.ps@[children@[t - 1] as int] && line_depth(out@[prev]) == levels0.len() + 1
                            && deeper_after(out@, prev, levels0.len() + 1),
                        levels0.len() <= count_true(path0),
                        out1.len() == out0.len() + 1,
                        forall|e: int|
                            0 <= e < self.es@.len() && near_end(#[trigger] self.es@[e], self.incoming) == v
                                && kind_index(self.es@[e].2) < ki ==> visited@[far_end(self.es@[e], self.incoming) as int]
                                || on_path@[far_end(self.es@[e], self.incoming) as int],
                        forall|t2: int|
                            0 <= t2 < t ==> visited@[#[trigger] children@[t2] as int] || on_path@[children@[t2] as int],
                    decreases children@.len() - t,
                {
                    let ghost vis_before = visited@;
                    let ghost out_before = out@;
                    levels.push(t + 1 < children.len());
                    proof {
                        lemma_reach_step(self.es@, self.incoming, self.root, v, children@[t as int]);
                        if t == 0 {
                            lemma_may_follow_first(out@, levels0.len() + 1, self.ps@[children@[t as int] as int], self.packages@);
                        } else {
                            assert(package_cmp(
                                self.packages@[self.ps@[children@[t - 1] as int] as int],
                                self.packages@[self.ps@[children@[t as int] as int] as int],
                            ) <= 0);
                            lemma_may_follow_prev(out@, levels0.len() + 1, prev, self.ps@[children@[t as int] as int], self.packages@);
                        }
                    }
                    self.walk_node(children[t], levels, visited, on_path, out);
                    levels.pop();
                    proof {
                        assert(levels@ =~= levels0);
                        assert forall|i: int| out0.len() + 1 <= i < out@.len() implies line_depth(#[trigger] out@[i])
                            >= levels0.len() + 1 by {
                            if i < out_before.len() {
                                assert(out@[i] == out_before[i]);
                            }
                        }
                        assert(out@[out0.len() as int] == out_before[out0.len() as int]);
                        prev = out_before.len() as int;
                        assert forall|k: int| prev < k < out@.len() implies line_depth(#[trigger] out@[k]) > levels0.len() + 1 by {}
                        if out@.len() == out_before.len() {
                            assert(out@ =~= out_before);
                        } else {
                            assert(line_depth(out@[out@.len() - 1]) >= levels0.len() + 1);
                        }
                        assert forall|i: int| 0 <= i < out1.len() implies #[trigger] out@[i] == out1[i] by {
                            assert(out_before[i] == out1[i]);
                        }
                        assert forall|t2: int| 0 <= t2 < t + 1 implies visited@[#[trigger] children@[t2] as int]
                            || on_path@[children@[t2] as int] by {
                            if t2 < t {
                                if vis_before[children@[t2] as int] {
                                    assert(visited@[children@[t2] as int]);
                                }
                            }
                        }
                        assert forall|e: int|
                            0 <= e < self.es@.len() && near_end(#[trigger] self.es@[e], self.incoming) == v
                                && kind_index(self.es@[e].2) < ki implies visited@[far_end(self.es@[e], self.incoming) as int]
                                || on_path@[far_end(self.es@[e], self.incoming) as int] by {
                            if vis_before[far_end(self.es@[e], self.incoming) as int] {
                                assert(visited@[far_end(self.es@[e], self.incoming) as int]);
                            }
                        }
                    }
                    t = t + 1;
                }
            }
            proof {
                assert forall|e: int|
                    0 <= e < self.es@.len() && near_end(#[trigger] self.es@[e], self.incoming) == v && kind_index(
                        self.es@[e].2,
                    ) < ki + 1 implies visited@[far_end(self.es@[e], self.incoming) as int] || on_path@[far_end(
                    self.es@[e],
                    self.incoming,
                ) as int] by {
                    if kind_index(self.es@[e].2) == ki {
                        assert(self.es@[e].2 == kind);
                        let c = far_end(self.es@[e], self.incoming);
                        assert(children@.contains(c));
                        let t2 = choose|t2: int| 0 <= t2 < children@.len() && children@[t2] == c;
                        assert(visited@[children@[t2] as int] || on_path@[children@[t2] as int]);
                    }
                }
            }
            ki = ki + 1;
        }
        let ghost vis2 = visited@;
        visited.set(v, true);
        on_path.set(v, false);
        proof {
            assert(on_path@ =~= path0);
            assert forall|u: int| 0 <= u < self.n() && #[trigger] visited0[u] implies visited@[u] by {
                assert(vis2[u]);
            }
            assert forall|e: int|
                0 <= e < self.es@.len() && visited@[near_end(#[trigger] self.es@[e], self.incoming) as int] implies visited@[far_end(
                self.es@[e],
                self.incoming,
            ) as int] || on_path@[far_end(self.es@[e], self.incoming) as int] by {
                let a = near_end(self.es@[e], self.incoming) as int;
                let c = far_end(self.es@[e], self.incoming) as int;
                if a == v {
                    assert(kind_index(self.es@[e].2) < 3);
                    assert(vis2[c] || path1[c]);
                } else {
                    assert(vis2[a]);
                    assert(vis2[c] || path1[c]);
                }
            }
            assert forall|u: int, i: int|
                0 <= u < self.n() && !visited@[u] && !on_path@[u] && 0 <= i < out@.len() implies !#[trigger] expanded_line(
                out@[i],
                self.ps@[u],
            ) by {
                assert(u != v);
                assert(!vis2[u] && !path1[u]);
            }
            assert forall|u: int| 0 <= u < self.n() && #[trigger] visited@[u] implies shown(out@, self.ps@[u]) by {
                if u == v {
                    assert(out@[out0.len() as int] == out1[out0.len() as int]);
                    assert(expanded_line(out@[out0.len() as int], self.ps@[u]));
                } else {
                    assert(vis2[u]);
                }
            }
            assert forall|i: int| 0 <= i < out0.len() implies #[trigger] out@[i] == out0[i] by {
                assert(out@[i] == out1[i]);
            }
            assert(out@[out0.len() as int] == out1[out0.len() as int]);
            assert forall|u: int| 0 <= u < self.n() && #[trigger] on_path@[u] implies shown(out@, self.ps@[u]) by {
                assert(path1[u]);
            }
        }
    }

    proof fn lemma_push_plain(&self, a: Seq<TextTreeLine>, b: Seq<TextTreeLine>, visited: Seq<bool>, on_path: Seq<bool>)
        requires
            b.len() == a.len() + 1,
            forall|i: int| 0 <= i < a.len() ==> b[i] == a[i],
            !(b.last() matches TextTreeLine::Package { mark: LineMark::Expanded, .. }),
            b.last() matches TextTreeLine::Package { id, .. } ==> id < self.packages@.len(),
            clean(a, self.ps@, visited, on_path),
            visited_shown(a, self.ps@, visited),
            !self.config.all ==> expanded_once(a),
            ids_within(a, self.packages@.len()),
            lines_reachable(a, self.es@, self.incoming, self.root, self.ps@),
            line_reachable(b.last(), self.es@, self.incoming, self.root, self.ps@),
        ensures
            lines_reachable(b, self.es@, self.incoming, self.root, self.ps@),
            clean(b, self.ps@, visited, on_path),
            visited_shown(b, self.ps@, visited),
            !self.config.all ==> expanded_once(b),
            ids_within(b, self.packages@.len()),
            extends(a, b),
    {
        assert forall|u: int, i: int|
            0 <= u < self.ps@.len() && !visited[u] && !on_path[u] && 0 <= i < b.len() implies !#[trigger] expanded_line(
            b[i],
            self.ps@[u],
        ) by {
            if i < a.len() {
                assert(b[i] == a[i]);
            }
        }
        assert forall|u: int| 0 <= u < self.ps@.len() && #[trigger] visited[u] implies shown(b, self.ps@[u]) by {
            lemma_shown_extends(a, b, self.ps@[u]);
        }
        assert forall|i: int| 0 <= i < b.len() implies #[trigger] line_reachable(
            b[i],
            self.es@,
            self.incoming,
            self.root,
            self.ps@,
        ) by {
            if i < a.len() {
                assert(b[i] == a[i]);
            }
        }
        if !self.config.all {
            assert forall|i: int, j: int, q: usize|
                0 <= i < j < b.len() && #[trigger] expanded_line(b[i], q) implies !#[trigger] expanded_line(b[j], q) by {
                assert(b[i] == a[i]);
                if j < a.len() {
                    assert(b[j] == a[j]);
                }
            }
        }
        assert forall|i: int| 0 <= i < b.len() implies (#[trigger] b[i] matches TextTreeLine::Package { id, .. } ==> id
            < self.packages@.len()) by {
            if i < a.len() {
                assert(b[i] == a[i]);
            }
        }
    }
}


/// With no node on the path, a visited set closed under the edges holds every
/// node reachable from a visited node.
proof fn lemma_closed_reaches(
    es: Seq<(usize, usize, DepKind)>,
    incoming: bool,
    visited: Seq<bool>,
    on_path: Seq<bool>,
    path: Seq<usize>,
    k: int,
)
    requires
        closed(es, incoming, visited, on_path),
        forall|u: int| 0 <= u < on_path.len() ==> !#[trigger] on_path[u],
        visited.len() == on_path.len(),
        edges_within(es, visited.len()),
        walk_path(es, incoming, path),
        0 <= k < path.len(),
        path[0] < visited.len(),
        visited[path[0] as int],
    ensures
        path[k] < visited.len(),
        visited[path[k] as int],
    decreases k,
{
    if k > 0 {
        lemma_closed_reaches(es, incoming, visited, on_path, path, k - 1);
        assert(step(es, incoming, path[k - 1], path[k]));
        let e = choose|e: int|
            0 <= e < es.len() && near_end(#[trigger] es[e], incoming) == path[k - 1] && far_end(es[e], incoming) == path[k];
        assert(visited[far_end(es[e], incoming) as int] || on_path[far_end(es[e], incoming) as int]);
    }
}

/// Walks the graph depth first from package `root` and returns the lines of
/// its dependency tree (or of its dependents').
///
/// Children come in three groups, normal, build, then development edges, each
/// in package name and version order; a group other than the normal one opens
/// with a header line at the depth of its children, which separates it from
/// the group before. A package already printed in full
/// is shown again without its subtree unless `all` is set, and a package on
/// the current path is shown as a cycle and not descended: nothing stands
/// beneath a repeated or cycle line, and a cycle line follows the line that
/// expands the same package.
pub fn walk_dependency_tree(
    root: usize,
    graph: &PackageGraph,
    packages: &Vec<ResolvedPackage>,
    config: &WalkConfig,
) -> (r: Vec<TextTreeLine>)
    requires
        graph.wf(),
        graph.nodes@.len() == packages@.len(),
    ensures
        root >= graph.nodes@.len() || graph.nodes@[root as int] is None ==> r@.len() == 0,
        root < graph.nodes@.len() && graph.nodes@[root as int] is Some ==> {
            let rn = graph.nodes@[root as int].unwrap();
            let incoming = config.direction == Direction::Dependents;
            &&& r@.len() > 0
            &&& expanded_line(r@[0], root)
            &&& forall|u: usize|
                #[trigger] reachable(graph.edge_seq(), incoming, rn, u) ==> shown(r@, graph.node_packages()[u as int])
            &&& !config.all ==> expanded_once(r@)
            &&& ids_within(r@, packages@.len())
            &&& lines_reachable(r@, graph.edge_seq(), incoming, rn, graph.node_packages())
            &&& line_depth(r@[0]) == 0
            &&& nothing_beneath_leaves(r@)
            &&& cycles_backed(r@)
            &&& siblings_sorted(r@, packages@)
        },
{
    let mut out: Vec<TextTreeLine> = Vec::new();
    let rn = match graph.node_of(root) {
        Some(x) => x,
        None => {
            return out;
        },
    };
    let n = graph.node_count();
    let es = graph.edges();
    let incoming = config.direction == Direction::Dependents;
    let adj = edges_by_endpoint(&es, n, incoming);
    let mut ps: Vec<usize> = Vec::new();
    let mut k: usize = 0;
    while k < n
        invariant
            graph.wf(),
            n == graph.node_packages().len(),
            k <= n,
            ps@ == graph.node_packages().take(k as int),
        decreases n - k,
    {
        ps.push(graph.node_package(k));
        proof {
            assert(graph.node_packages().take(k + 1) =~= graph.node_packages().take(k as int).push(
                graph.node_packages()[k as int],
            ));
        }
        k = k + 1;
    }
    proof {
        assert(ps@ =~= graph.node_packages());
    }
    let walker = Walker { es, adj, ps, packages, config: *config, incoming, root: rn };
    let mut visited: Vec<bool> = Vec::new();
    let mut on_path: Vec<bool> = Vec::new();
    let mut a: usize = 0;
    while a < n
        invariant
            a <= n,
            visited@.len() == a,
            on_path@.len() == a,
            forall|x: int| 0 <= x < a ==> !visited@[x] && !on_path@[x],
        decreases n - a,
    {
        visited.push(false);
        on_path.push(false);
        a = a + 1;
    }
    let mut levels: Vec<bool> = Vec::new();
    proof {
        let path = seq![rn];
        assert(walk_path(graph.edge_seq(), incoming, path));
        assert(reachable(graph.edge_seq(), incoming, rn, rn));
    }
    walker.walk_node(rn, &mut levels, &mut visited, &mut on_path, &mut out);
    proof {
        assert forall|u: usize| #[trigger] reachable(graph.edge_seq(), incoming, rn, u) implies shown(
            out@,
            graph.node_packages()[u as int],
        ) by {
            let path = choose|path: Seq<usize>|
                #[trigger] walk_path(graph.edge_seq(), incoming, path) && path.len() >= 1 && path[0] == rn && path.last()
                    == u;
            lemma_closed_reaches(graph.edge_seq(), incoming, visited@, on_path@, path, path.len() - 1);
        }
    }
    out
}

} // verus!
