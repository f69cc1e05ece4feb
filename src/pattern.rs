use vstd::prelude::*;
use crate::format::str_eq;

verus! {

/// One piece of a display pattern.
#[derive(Debug)]
pub enum Chunk {
    /// Literal text.
    Raw(String),
    /// `{p}`: package name and version.
    Package,
    /// `{l}`: the license, if any.
    License,
    /// `{r}`: the repository, if any.
    Repository,
}

/// The meaning of a chunk.
pub enum ChunkView {
    Raw(Seq<char>),
    Package,
    License,
    Repository,
}

impl View for Chunk {
    type V = ChunkView;

    open spec fn view(&self) -> ChunkView {
        match self {
            Chunk::Raw(s) => ChunkView::Raw(s@),
            Chunk::Package => ChunkView::Package,
            Chunk::License => ChunkView::License,
            Chunk::Repository => ChunkView::Repository,
        }
    }
}

/// Why a pattern was rejected.
#[derive(Debug)]
pub enum PatternError {
    /// `{name}` with a name other than `p`, `l` or `r`.
    Unsupported(String),
    /// `{` not closed by `}`.
    ExpectedCloseBrace,
    /// A lone `}`.
    UnexpectedCloseBrace,
}

pub enum PatternErrorView {
    Unsupported(Seq<char>),
    ExpectedCloseBrace,
    UnexpectedCloseBrace,
}

impl View for PatternError {
    type V = PatternErrorView;

    open spec fn view(&self) -> PatternErrorView {
        match self {
            PatternError::Unsupported(s) => PatternErrorView::Unsupported(s@),
            PatternError::ExpectedCloseBrace => PatternErrorView::ExpectedCloseBrace,
            PatternError::UnexpectedCloseBrace => PatternErrorView::UnexpectedCloseBrace,
        }
    }
}

impl PatternError {
    /// The message shown to the user.
    pub fn message(&self) -> (r: String)
        ensures
            self matches PatternError::ExpectedCloseBrace ==> r@ == "expected '}'"@,
            self matches PatternError::UnexpectedCloseBrace ==> r@ == "unexpected '}'"@,
            self matches PatternError::Unsupported(a) ==> r@ == "unsupported pattern `"@ + a@ + "`"@,
    {
        match self {
            PatternError::Unsupported(a) => {
                let mut m = String::from_str("unsupported pattern `");
                m.append(a.as_str());
                m.append("`");
                m
            },
            PatternError::ExpectedCloseBrace => String::from_str("expected '}'"),
            PatternError::UnexpectedCloseBrace => String::from_str("unexpected '}'"),
        }
    }
}

/// What `char::is_alphabetic` says of `c`.
pub uninterp spec fn char_alphabetic(c: char) -> bool;

/// What `char::is_alphanumeric` says of `c`.
pub uninterp spec fn char_alphanumeric(c: char) -> bool;

/// An ASCII letter.
pub open spec fn ascii_letter(c: char) -> bool {
    ('a' <= c && c <= 'z') || ('A' <= c && c <= 'Z')
}

/// An ASCII digit.
pub open spec fn ascii_digit(c: char) -> bool {
    '0' <= c && c <= '9'
}

/// Relies on `char::is_alphabetic`: the Unicode Alphabetic property of `c`,
/// which among ASCII characters the letters alone have.
#[verifier::external_body]
fn is_alphabetic(c: char) -> (r: bool)
    ensures
        r == char_alphabetic(c),
        (c as u32) < 128 ==> (r <==> ascii_letter(c)),
{
    c.is_alphabetic()
}

/// Relies on `char::is_alphanumeric`: Alphabetic or Numeric in Unicode,
/// which among ASCII characters the letters and digits alone are.
#[verifier::external_body]
fn is_alphanumeric(c: char) -> (r: bool)
    ensures
        r == char_alphanumeric(c),
        (c as u32) < 128 ==> (r <==> (ascii_letter(c) || ascii_digit(c))),
{
    c.is_alphanumeric()
}

/// A character that can start an argument name: alphabetic.
pub open spec fn name_start(c: char) -> bool {
    if (c as u32) < 128 {
        ascii_letter(c)
    } else {
        char_alphabetic(c)
    }
}

/// A character that can continue an argument name: alphanumeric.
pub open spec fn name_char(c: char) -> bool {
    if (c as u32) < 128 {
        ascii_letter(c) || ascii_digit(c)
    } else {
        char_alphanumeric(c)
    }
}

/// End of the run of alphanumeric characters starting at `i`.
pub open spec fn name_end(s: Seq<char>, i: int) -> int
    decreases s.len() - i,
{
    if 0 <= i < s.len() && name_char(s[i]) {
        name_end(s, i + 1)
    } else {
        i
    }
}

/// End of an argument name starting at `i`: a letter then alphanumerics, or nothing.
pub open spec fn arg_end(s: Seq<char>, i: int) -> int {
    if 0 <= i < s.len() && name_start(s[i]) {
        name_end(s, i + 1)
    } else {
        i
    }
}

/// End of the literal text starting at `i`: up to the next brace.
pub open spec fn text_end(s: Seq<char>, i: int) -> int
    decreases s.len() - i,
{
    if 0 <= i < s.len() && s[i] != '{' && s[i] != '}' {
        text_end(s, i + 1)
    } else {
        i
    }
}

/// The chunk that an argument name stands for.
pub open spec fn argument_chunk(name: Seq<char>) -> Result<ChunkView, PatternErrorView> {
    if name == seq!['p'] {
        Ok(ChunkView::Package)
    } else if name == seq!['l'] {
        Ok(ChunkView::License)
    } else if name == seq!['r'] {
        Ok(ChunkView::Repository)
    } else {
        Err(PatternErrorView::Unsupported(name))
    }
}

/// A chunk followed by the parse of the rest; the first error wins.
pub open spec fn cons(
    first: Result<ChunkView, PatternErrorView>,
    rest: Result<Seq<ChunkView>, PatternErrorView>,
) -> Result<Seq<ChunkView>, PatternErrorView> {
    match first {
        Err(e) => Err(e),
        Ok(c) => match rest {
            Ok(cs) => Ok(seq![c] + cs),
            Err(e) => Err(e),
        },
    }
}

/// Parse of `s` from position `i`: `{{` and `}}` are literal braces, `{name}`
/// an argument, a lone `}` or an unclosed `{` an error, anything else text.
pub open spec fn parse_from(s: Seq<char>, i: int) -> Result<Seq<ChunkView>, PatternErrorView>
    decreases s.len() - i,
{
    if i < 0 || i >= s.len() {
        Ok(Seq::empty())
    } else if s[i] == '{' {
        if i + 1 < s.len() && s[i + 1] == '{' {
            cons(Ok(ChunkView::Raw(seq!['{'])), parse_from(s, i + 2))
        } else {
            let j = arg_end(s, i + 1);
            if j < i + 1 {
                Ok(Seq::empty())
            } else if j < s.len() && s[j] == '}' {
                cons(argument_chunk(s.subrange(i + 1, j)), parse_from(s, j + 1))
            } else {
                Err(PatternErrorView::ExpectedCloseBrace)
            }
        }
    } else if s[i] == '}' {
        if i + 1 < s.len() && s[i + 1] == '}' {
            cons(Ok(ChunkView::Raw(seq!['}'])), parse_from(s, i + 2))
        } else {
            Err(PatternErrorView::UnexpectedCloseBrace)
        }
    } else {
        let j = text_end(s, i);
        if j <= i || j > s.len() {
            Ok(Seq::empty())
        } else {
            cons(Ok(ChunkView::Raw(s.subrange(i, j))), parse_from(s, j))
        }
    }
}

/// Chunks already read, followed by the parse of the rest.
pub open spec fn after(
    done: Seq<ChunkView>,
    rest: Result<Seq<ChunkView>, PatternErrorView>,
) -> Result<Seq<ChunkView>, PatternErrorView> {
    match rest {
        Ok(cs) => Ok(done + cs),
        Err(e) => Err(e),
    }
}

proof fn lemma_name_end_bounds(s: Seq<char>, i: int)
    requires
        0 <= i <= s.len(),
    ensures
        i <= name_end(s, i) <= s.len(),
    decreases s.len() - i,
{
    if i < s.len() && name_char(s[i]) {
        lemma_name_end_bounds(s, i + 1);
    }
}

proof fn lemma_text_end_bounds(s: Seq<char>, i: int)
    requires
        0 <= i <= s.len(),
    ensures
        i <= text_end(s, i) <= s.len(),
    decreases s.len() - i,
{
    if i < s.len() && s[i] != '{' && s[i] != '}' {
        lemma_text_end_bounds(s, i + 1);
    }
}

/// A display pattern such as `{p} {l}`.
#[derive(Debug)]
pub struct Pattern(pub Vec<Chunk>);

impl View for Pattern {
    type V = Seq<ChunkView>;

    open spec fn view(&self) -> Seq<ChunkView> {
        self.0@.map_values(|c: Chunk| c@)
    }
}

impl Pattern {
    /// Parses a display pattern: `{p}` package, `{l}` license, `{r}`
    /// repository, `{{` and `}}` literal braces, anything else literal text.
    pub fn try_build(format: &str) -> (r: Result<Pattern, PatternError>)
        ensures
            match parse_from(format@, 0) {
                Ok(cs) => r matches Ok(p) && p@ == cs,
                Err(e) => r matches Err(x) && x@ == e,
            },
    {
        let n = format.unicode_len();
        let mut chunks: Vec<Chunk> = Vec::new();
        let mut i: usize = 0;
        while i < n
            invariant
                n == format@.len(),
                i <= n,
                parse_from(format@, 0) == after(chunks@.map_values(|c: Chunk| c@), parse_from(format@, i as int)),
            decreases n - i,
        {
            let ghost s = format@;
            let ghost done = chunks@.map_values(|c: Chunk| c@);
            let c = format.get_char(i);
            let next: usize;
            if c == '{' {
                if i + 1 < n && format.get_char(i + 1) == '{' {
                    chunks.push(Chunk::Raw(String::from_str("{")));
                    next = i + 2;
                    proof {
                        reveal_strlit("{");
                        assert("{"@ =~= seq!['{']);
                        assert(parse_from(s, i as int) == cons(Ok(ChunkView::Raw(seq!['{'])), parse_from(s, next as int)));
                    }
                } else {
                    let mut j = i + 1;
                    if j < n && is_alphabetic(format.get_char(j)) {
                        j = j + 1;
                        while j < n && is_alphanumeric(format.get_char(j))
                            invariant
                                n == s.len(),
                                s == format@,
                                i + 2 <= j <= n,
                                arg_end(s, i + 1) == name_end(s, j as int),
                            decreases n - j,
                        {
                            j = j + 1;
                        }
                    }
                    proof {
                        lemma_name_end_bounds(s, j as int);
                    }
                    assert(j == arg_end(s, i + 1));
                    if j < n && format.get_char(j) == '}' {
                        let name = format.substring_char(i + 1, j);
                        proof {
                            reveal_strlit("p");
                            reveal_strlit("l");
                            reveal_strlit("r");
                            assert("p"@ =~= seq!['p']);
                            assert("l"@ =~= seq!['l']);
                            assert("r"@ =~= seq!['r']);
                        }
                        let chunk = if str_eq(name, "p") {
                            Chunk::Package
                        } else if str_eq(name, "l") {
                            Chunk::License
                        } else if str_eq(name, "r") {
                            Chunk::Repository
                        } else {
                            return Err(PatternError::Unsupported(String::from_str(name)));
                        };
                        chunks.push(chunk);
                        next = j + 1;
                        assert(parse_from(s, i as int) == cons(Ok(chunk@), parse_from(s, next as int)));
                    } else {
                        return Err(PatternError::ExpectedCloseBrace);
                    }
                }
            } else if c == '}' {
                if i + 1 < n && format.get_char(i + 1) == '}' {
                    chunks.push(Chunk::Raw(String::from_str("}")));
                    next = i + 2;
                    proof {
                        reveal_strlit("}");
                        assert("}"@ =~= seq!['}']);
                        assert(parse_from(s, i as int) == cons(Ok(ChunkView::Raw(seq!['}'])), parse_from(s, next as int)));
                    }
                } else {
                    return Err(PatternError::UnexpectedCloseBrace);
                }
            } else {
                let mut j = i + 1;
                while j < n && format.get_char(j) != '{' && format.get_char(j) != '}'
                    invariant
                        n == s.len(),
                        s == format@,
                        i + 1 <= j <= n,
                        text_end(s, i as int) == text_end(s, j as int),
                    decreases n - j,
                {
                    j = j + 1;
                }
                proof {
                    lemma_text_end_bounds(s, j as int);
                }
                chunks.push(Chunk::Raw(String::from_str(format.substring_char(i, j))));
                next = j;
                assert(parse_from(s, i as int) == cons(Ok(ChunkView::Raw(s.subrange(i as int, j as int))), parse_from(s, next as int)));
            }
            proof {
                let d2 = chunks@.map_values(|c: Chunk| c@);
                assert(d2 =~= done.push(d2.last()));
                match parse_from(s, next as int) {
                    Ok(cs) => {
                        assert(done + (seq![d2.last()] + cs) =~= d2 + cs);
                    },
                    Err(_) => {},
                }
            }
            i = next;
        }
        proof {
            assert(chunks@.map_values(|c: Chunk| c@) + Seq::<ChunkView>::empty() =~= chunks@.map_values(|c: Chunk| c@));
        }
        Ok(Pattern(chunks))
    }
}

/// The text one chunk stands for.
pub open spec fn chunk_text(
    c: ChunkView,
    name: Seq<char>,
    version: Seq<char>,
    license: Option<Seq<char>>,
    repository: Option<Seq<char>>,
) -> Seq<char> {
    match c {
        ChunkView::Raw(t) => t,
        ChunkView::Package => name + " "@ + version,
        ChunkView::License => match license {
            Some(l) => l,
            None => Seq::empty(),
        },
        ChunkView::Repository => match repository {
            Some(r) => r,
            None => Seq::empty(),
        },
    }
}

/// The text of a pattern for one package: its chunks' texts in order.
pub open spec fn pattern_text(
    cs: Seq<ChunkView>,
    name: Seq<char>,
    version: Seq<char>,
    license: Option<Seq<char>>,
    repository: Option<Seq<char>>,
) -> Seq<char>
    decreases cs.len(),
{
    if cs.len() == 0 {
        Seq::empty()
    } else {
        pattern_text(cs.drop_last(), name, version, license, repository) + chunk_text(
            cs.last(),
            name,
            version,
            license,
            repository,
        )
    }
}

/// View of an optional string.
pub open spec fn opt_view(o: Option<String>) -> Option<Seq<char>> {
    match o {
        Some(s) => Some(s@),
        None => None,
    }
}

impl Pattern {
    /// Renders the pattern for a package with the given name, version,
    /// license and repository.
    pub fn render(
        &self,
        name: &str,
        version: &str,
        license: &Option<String>,
        repository: &Option<String>,
    ) -> (r: String)
        ensures
            r@ == pattern_text(self@, name@, version@, opt_view(*license), opt_view(*repository)),
    {
        let ghost lv = opt_view(*license);
        let ghost rv = opt_view(*repository);
        let mut out = String::new();
        let mut i: usize = 0;
        while i < self.0.len()
            invariant
                i <= self.0@.len(),
                out@ == pattern_text(self@.take(i as int), name@, version@, lv, rv),
                lv == opt_view(*license),
                rv == opt_view(*repository),
            decreases self.0@.len() - i,
        {
            let ghost before = out@;
            match &self.0[i] {
                Chunk::Raw(t) => out.append(t.as_str()),
                Chunk::Package => {
                    out.append(name);
                    out.append(" ");
                    out.append(version);
                },
                Chunk::License => match license {
                    Some(l) => out.append(l.as_str()),
                    None => {},
                },
                Chunk::Repository => match repository {
                    Some(x) => out.append(x.as_str()),
                    None => {},
                },
            }
            proof {
                assert(self@.take(i + 1).drop_last() =~= self@.take(i as int));
                assert(out@ =~= before + chunk_text(self@[i as int], name@, version@, lv, rv));
            }
            i = i + 1;
        }
        proof {
            assert(self@.take(i as int) =~= self@);
        }
        out
    }
}

} // verus!
