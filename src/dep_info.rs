use vstd::prelude::*;

verus! {

/// First position at or after `i` that is not a space.
pub open spec fn skip_spaces(s: Seq<char>, i: int) -> int
    decreases s.len() - i,
{
    if 0 <= i < s.len() && s[i] == ' ' {
        skip_spaces(s, i + 1)
    } else {
        i
    }
}

/// First position at or after `i` that is a space, or the end.
pub open spec fn token_end(s: Seq<char>, i: int) -> int
    decreases s.len() - i,
{
    if 0 <= i < s.len() && s[i] != ' ' {
        token_end(s, i + 1)
    } else {
        i
    }
}

/// The token names a Rust source file.
pub open spec fn is_rs_path(t: Seq<char>) -> bool {
    t.len() >= 3 && t.subrange(t.len() - 3, t.len() as int) == seq!['.', 'r', 's']
}

/// The space-separated tokens of `s` from `i` on that name Rust sources.
pub open spec fn rs_tokens_from(s: Seq<char>, i: int) -> Seq<Seq<char>>
    decreases s.len() - i,
{
    if i < 0 || i >= s.len() {
        Seq::empty()
    } else {
        let j = skip_spaces(s, i);
        if j < i || j >= s.len() {
            Seq::empty()
        } else {
            let k = token_end(s, j);
            if k <= j || k > s.len() {
                Seq::empty()
            } else if is_rs_path(s.subrange(j, k)) {
                seq![s.subrange(j, k)] + rs_tokens_from(s, k)
            } else {
                rs_tokens_from(s, k)
            }
        }
    }
}

/// Position of the first colon at or after `i`, or the end.
pub open spec fn first_colon(s: Seq<char>, i: int) -> int
    decreases s.len() - i,
{
    if 0 <= i < s.len() && s[i] != ':' {
        first_colon(s, i + 1)
    } else {
        i
    }
}

/// The Rust sources that one line of a dep-info file lists: the tokens after
/// its first colon that end in `.rs`.
pub open spec fn dep_line_sources(line: Seq<char>) -> Seq<Seq<char>> {
    let c = first_colon(line, 0);
    if c >= line.len() {
        Seq::empty()
    } else {
        rs_tokens_from(line, c + 1)
    }
}

proof fn lemma_scan_bounds(s: Seq<char>, i: int)
    requires
        0 <= i <= s.len(),
    ensures
        i <= skip_spaces(s, i) <= s.len(),
        i <= token_end(s, i) <= s.len(),
        i <= first_colon(s, i) <= s.len(),
    decreases s.len() - i,
{
    if i < s.len() {
        lemma_scan_bounds(s, i + 1);
    }
}

fn ends_with_rs(line: &str, j: usize, k: usize) -> (r: bool)
    requires
        j <= k <= line@.len(),
    ensures
        r == is_rs_path(line@.subrange(j as int, k as int)),
{
    if k - j < 3 {
        return false;
    }
    let r = line.get_char(k - 3) == '.' && line.get_char(k - 2) == 'r' && line.get_char(k - 1) == 's';
    proof {
        let t = line@.subrange(j as int, k as int);
        let tail = t.subrange(t.len() - 3, t.len() as int);
        if r {
            assert(tail =~= seq!['.', 'r', 's']);
        } else {
            assert(tail[0] == line@[k - 3] && tail[1] == line@[k - 2] && tail[2] == line@[k - 1]);
        }
    }
    r
}

/// The Rust sources that a line of a dep-info file (`target: dep dep ...`)
/// lists as dependencies.
pub fn dep_line_rs_paths(line: &str) -> (r: Vec<String>)
    ensures
        r@.map_values(|x: String| x@) == dep_line_sources(line@),
{
    let ghost s = line@;
    let n = line.unicode_len();
    let mut c: usize = 0;
    while c < n && line.get_char(c) != ':'
        invariant
            n == s.len(),
            s == line@,
            c <= n,
            first_colon(s, 0) == first_colon(s, c as int),
        decreases n - c,
    {
        c = c + 1;
    }
    let mut out: Vec<String> = Vec::new();
    if c >= n {
        return out;
    }
    let mut i: usize = c + 1;
    while i < n
        invariant
            n == s.len(),
            s == line@,
            c < n,
            c + 1 <= i <= n,
            dep_line_sources(s) == out@.map_values(|x: String| x@) + rs_tokens_from(s, i as int),
        decreases n - i,
    {
        let ghost before = out@.map_values(|x: String| x@);
        let mut j = i;
        while j < n && line.get_char(j) == ' '
            invariant
                n == s.len(),
                s == line@,
                i <= j <= n,
                skip_spaces(s, i as int) == skip_spaces(s, j as int),
            decreases n - j,
        {
            j = j + 1;
        }
        if j >= n {
            proof {
                assert(rs_tokens_from(s, i as int) =~= Seq::<Seq<char>>::empty());
                assert(before + Seq::<Seq<char>>::empty() =~= before);
                assert(rs_tokens_from(s, n as int) =~= Seq::<Seq<char>>::empty());
            }
            i = n;
        } else {
            let mut k = j;
            while k < n && line.get_char(k) != ' '
                invariant
                    n == s.len(),
                    s == line@,
                    j <= k <= n,
                    token_end(s, j as int) == token_end(s, k as int),
                decreases n - k,
            {
                k = k + 1;
            }
            proof {
                lemma_scan_bounds(s, k as int);
            }
            assert(k > j);
            if ends_with_rs(line, j, k) {
                out.push(String::from_str(line.substring_char(j, k)));
                proof {
                    assert(out@.map_values(|x: String| x@) =~= before.push(s.subrange(j as int, k as int)));
                    assert(before.push(s.subrange(j as int, k as int)) + rs_tokens_from(s, k as int) =~= before + (seq![
                        s.subrange(j as int, k as int),
                    ] + rs_tokens_from(s, k as int)));
                }
            }
            i = k;
        }
    }
    proof {
        assert(rs_tokens_from(s, i as int) =~= Seq::<Seq<char>>::empty());
        assert(out@.map_values(|x: String| x@) + Seq::<Seq<char>>::empty() =~= out@.map_values(|x: String| x@));
    }
    out
}

} // verus!
