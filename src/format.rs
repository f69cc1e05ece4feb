use vstd::prelude::*;

verus! {

/// Character set used for tree art and symbols.
#[derive(Clone, Copy, Debug, PartialEq, Eq, Structural)]
pub enum Charset {
    Utf8,
    Ascii,
    GitHubMarkdown,
}

/// Whether two strings hold the same characters.
pub fn str_eq(a: &str, b: &str) -> (r: bool)
    ensures
        r == (a@ == b@),
{
    let n = a.unicode_len();
    if n != b.unicode_len() {
        return false;
    }
    let mut i: usize = 0;
    while i < n
        invariant
            n == a@.len(),
            n == b@.len(),
            i <= n,
            forall|k: int| 0 <= k < i ==> a@[k] == b@[k],
        decreases n - i,
    {
        if a.get_char(i) != b.get_char(i) {
            return false;
        }
        i = i + 1;
    }
    assert(a@ =~= b@);
    true
}

impl std::str::FromStr for Charset {
    type Err = &'static str;

    fn from_str(s: &str) -> (r: Result<Charset, &'static str>) {
        Charset::parse(s)
    }
}

impl Charset {
    /// Reads `utf8` or `ascii`; anything else is rejected.
    pub fn parse(s: &str) -> (r: Result<Charset, &'static str>)
        ensures
            s@ == "utf8"@ ==> r == Ok::<Charset, &'static str>(Charset::Utf8),
            s@ == "ascii"@ ==> r == Ok::<Charset, &'static str>(Charset::Ascii),
            s@ != "utf8"@ && s@ != "ascii"@ ==> r == Err::<Charset, &'static str>("invalid charset"),
    {
        proof {
            reveal_strlit("utf8");
            reveal_strlit("ascii");
            assert("utf8"@[0] != "ascii"@[0]);
        }
        if str_eq(s, "utf8") {
            Ok(Charset::Utf8)
        } else if str_eq(s, "ascii") {
            Ok(Charset::Ascii)
        } else {
            Err("invalid charset")
        }
    }
}

/// What the scan found in a crate.
#[derive(Clone, Copy, Debug, PartialEq, Eq, Structural)]
pub enum CrateDetectionStatus {
    NoneDetectedForbidsUnsafe,
    NoneDetectedAllowsUnsafe,
    UnsafeDetected,
}

/// The symbols shown beside a package.
#[derive(Clone, Copy, Debug, PartialEq, Eq, Structural)]
pub enum SymbolKind {
    Lock,
    QuestionMark,
    Rads,
}

/// How each tree line is prefixed.
#[derive(Clone, Copy, Debug, PartialEq, Eq, Structural)]
pub enum Prefix {
    Depth,
    Indent,
    /// No prefix at all.
    NoIndent,
}

/// Machine-readable output formats.
#[derive(Clone, Copy, Debug, PartialEq, Eq, Structural)]
pub enum OutputFormat {
    Json,
}

/// Which files of a package a scan reads.
#[derive(Clone, Copy, Debug, PartialEq, Eq, Structural)]
pub enum ScanMode {
    /// Every `.rs` file.
    Full,
    /// Only the entry points; enough to decide whether a crate forbids unsafe code.
    EntryPointsOnly,
}

impl ScanMode {
    /// Whether a file is read in this mode.
    pub fn includes(&self, is_crate_entry_point: bool) -> (r: bool)
        ensures
            r == (*self == ScanMode::Full || is_crate_entry_point),
    {
        match self {
            ScanMode::Full => true,
            ScanMode::EntryPointsOnly => is_crate_entry_point,
        }
    }
}

/// The symbol shown for a detection status.
pub fn status_symbol(status: CrateDetectionStatus) -> (r: SymbolKind)
    ensures
        r == match status {
            CrateDetectionStatus::NoneDetectedForbidsUnsafe => SymbolKind::Lock,
            CrateDetectionStatus::NoneDetectedAllowsUnsafe => SymbolKind::QuestionMark,
            CrateDetectionStatus::UnsafeDetected => SymbolKind::Rads,
        },
{
    match status {
        CrateDetectionStatus::NoneDetectedForbidsUnsafe => SymbolKind::Lock,
        CrateDetectionStatus::NoneDetectedAllowsUnsafe => SymbolKind::QuestionMark,
        CrateDetectionStatus::UnsafeDetected => SymbolKind::Rads,
    }
}

/// When only `forbid(unsafe_code)` is checked: a lock and a green name for a
/// package whose entry points all forbid unsafe code, a question mark and a
/// red name otherwise, unknown packages included.
pub fn forbid_only_marking(forbids_unsafe: Option<bool>, name: String) -> (r: (SymbolKind, String))
    ensures
        forbids_unsafe == Some(true) ==> r.0 == SymbolKind::Lock && (!holds_reset(name@) ==> r.1@ == name@ || r.1@
            == painted(name@, "\x1B[32m"@)),
        forbids_unsafe != Some(true) ==> r.0 == SymbolKind::QuestionMark && (!holds_reset(name@) ==> r.1@ == name@
            || r.1@ == painted(name@, "\x1B[31m"@)),
{
    match forbids_unsafe {
        Some(true) => (SymbolKind::Lock, paint_green(name)),
        _ => (SymbolKind::QuestionMark, paint_red(name)),
    }
}

/// Relies on colored's `Colorize::red` and `ColoredString`'s `Display`: the
/// text comes back unchanged when coloring is off, wrapped in the red escape
/// otherwise (inner reset sequences aside).
#[verifier::external_body]
fn paint_red(s: String) -> (r: String)
    ensures
        !holds_reset(s@) ==> r@ == s@ || r@ == painted(s@, "\x1B[31m"@),
{
    colored::Colorize::red(s.as_str()).to_string()
}

/// Whether `s` holds the terminal reset sequence, which a colored string escapes.
pub open spec fn holds_reset(s: Seq<char>) -> bool {
    exists|i: int| 0 <= i && i + 4 <= s.len() && #[trigger] s.subrange(i, i + 4) == "\x1B[0m"@
}

/// `s` wrapped in the escape sequence `style` and the reset sequence.
pub open spec fn painted(s: Seq<char>, style: Seq<char>) -> Seq<char> {
    style + s + "\x1B[0m"@
}

/// Relies on colored's `Colorize::green` and `ColoredString`'s `Display`: the
/// text comes back unchanged when coloring is off, wrapped in the green
/// escape otherwise (inner reset sequences aside).
#[verifier::external_body]
fn paint_green(s: String) -> (r: String)
    ensures
        !holds_reset(s@) ==> r@ == s@ || r@ == painted(s@, "\x1B[32m"@),
{
    colored::Colorize::green(s.as_str()).to_string()
}

/// Relies on colored's `Colorize::normal` and `ColoredString`'s `Display`: a
/// plain colored string displays as its text.
#[verifier::external_body]
fn paint_normal(s: String) -> (r: String)
    ensures
        r@ == s@,
{
    colored::Colorize::normal(s.as_str()).to_string()
}

/// Relies on colored's `Colorize::red` and `Colorize::bold` and
/// `ColoredString`'s `Display`: the text comes back unchanged when coloring is
/// off, wrapped in the bold red escape otherwise (inner reset sequences aside).
#[verifier::external_body]
fn paint_red_bold(s: String) -> (r: String)
    ensures
        !holds_reset(s@) ==> r@ == s@ || r@ == painted(s@, "\x1B[1;31m"@),
{
    colored::Colorize::bold(colored::Colorize::red(s.as_str())).to_string()
}

/// Colors `string` after the detection status: green when the crate forbids
/// unsafe code, plain when it allows it without using it, bold red when unsafe
/// code was found. Markdown output is never colored.
pub fn colorize(charset: Charset, crate_detection_status: &CrateDetectionStatus, string: String) -> (r: String)
    ensures
        charset == Charset::GitHubMarkdown ==> r@ == string@,
        charset != Charset::GitHubMarkdown && *crate_detection_status == CrateDetectionStatus::NoneDetectedAllowsUnsafe
            ==> r@ == string@,
        charset != Charset::GitHubMarkdown && *crate_detection_status == CrateDetectionStatus::NoneDetectedForbidsUnsafe
            && !holds_reset(string@) ==> r@ == string@ || r@ == painted(string@, "\x1B[32m"@),
        charset != Charset::GitHubMarkdown && *crate_detection_status == CrateDetectionStatus::UnsafeDetected
            && !holds_reset(string@) ==> r@ == string@ || r@ == painted(string@, "\x1B[1;31m"@),
{
    match charset {
        Charset::GitHubMarkdown => string,
        _ => match crate_detection_status {
            CrateDetectionStatus::NoneDetectedForbidsUnsafe => paint_green(string),
            CrateDetectionStatus::NoneDetectedAllowsUnsafe => paint_normal(string),
            CrateDetectionStatus::UnsafeDetected => paint_red_bold(string),
        },
    }
}


/// Relies on colored's `Colorize::bold` and `ColoredString`'s `Display`: the
/// text comes back unchanged when coloring is off, wrapped in the bold escape
/// otherwise (inner reset sequences aside).
#[verifier::external_body]
fn paint_bold(s: String) -> (r: String)
    ensures
        !holds_reset(s@) ==> r@ == s@ || r@ == painted(s@, "\x1B[1m"@),
{
    colored::Colorize::bold(s.as_str()).to_string()
}

/// Relies on console's `Term::stdout`, `Term::features` and
/// `TermFeatures::wants_emoji`: whether standard output is a terminal that
/// shows emoji. Nothing is assumed of the answer, which depends on the
/// terminal and the environment.
#[verifier::external_body]
fn terminal_wants_emoji() -> (r: bool) {
    console::Term::stdout().features().wants_emoji()
}

/// The text of a symbol, as an emoji or as its fallback.
pub open spec fn shown_symbol(es: EmojiSymbols, kind: SymbolKind, emoji: bool) -> Seq<char> {
    if emoji {
        emoji_text(kind)
    } else {
        es.fallback(kind)
    }
}

/// The emoji of a symbol.
pub open spec fn emoji_text(kind: SymbolKind) -> Seq<char> {
    match kind {
        SymbolKind::Lock => "🔒"@,
        SymbolKind::QuestionMark => "❓"@,
        SymbolKind::Rads => "☢️"@,
    }
}

/// The plain text that stands for a symbol when no emoji is shown.
pub open spec fn fallback_text(kind: SymbolKind) -> Seq<char> {
    match kind {
        SymbolKind::Lock => ":)"@,
        SymbolKind::QuestionMark => "?"@,
        SymbolKind::Rads => "!"@,
    }
}

/// The status whose color a symbol's fallback takes.
pub open spec fn symbol_status(kind: SymbolKind) -> CrateDetectionStatus {
    match kind {
        SymbolKind::Lock => CrateDetectionStatus::NoneDetectedForbidsUnsafe,
        SymbolKind::QuestionMark => CrateDetectionStatus::NoneDetectedAllowsUnsafe,
        SymbolKind::Rads => CrateDetectionStatus::UnsafeDetected,
    }
}

/// The symbols shown beside packages: emoji on a terminal that wants them
/// with the UTF-8 charset, colored text otherwise.
pub struct EmojiSymbols {
    charset: Charset,
    lock: String,
    question_mark: String,
    rads: String,
}

impl EmojiSymbols {
    pub closed spec fn spec_charset(&self) -> Charset {
        self.charset
    }

    /// The text shown for `kind` when no emoji is.
    pub closed spec fn fallback(&self, kind: SymbolKind) -> Seq<char> {
        match kind {
            SymbolKind::Lock => self.lock@,
            SymbolKind::QuestionMark => self.question_mark@,
            SymbolKind::Rads => self.rads@,
        }
    }

    pub fn new(charset: Charset) -> (r: EmojiSymbols)
        ensures
            r.spec_charset() == charset,
            charset == Charset::GitHubMarkdown ==> forall|k: SymbolKind| #[trigger] r.fallback(k) == fallback_text(k),
            r.fallback(SymbolKind::QuestionMark) == fallback_text(SymbolKind::QuestionMark),
    {
        let lock = colorize(charset, &CrateDetectionStatus::NoneDetectedForbidsUnsafe, String::from_str(":)"));
        let question_mark = colorize(charset, &CrateDetectionStatus::NoneDetectedAllowsUnsafe, String::from_str("?"));
        let rads = colorize(charset, &CrateDetectionStatus::UnsafeDetected, String::from_str("!"));
        EmojiSymbols { charset, lock, question_mark, rads }
    }

    /// Emoji are shown with the UTF-8 charset on a terminal that wants them.
    pub fn will_output_emoji(&self) -> (r: bool)
        ensures
            r ==> self.spec_charset() == Charset::Utf8,
    {
        self.charset == Charset::Utf8 && terminal_wants_emoji()
    }

    /// The text of a symbol: its emoji when emoji are shown, its fallback otherwise.
    pub fn emoji(&self, kind: SymbolKind) -> (r: String)
        ensures
            r@ == emoji_text(kind) || r@ == self.fallback(kind),
            self.spec_charset() != Charset::Utf8 ==> r@ == self.fallback(kind),
    {
        self.symbol(kind, self.will_output_emoji())
    }

    /// The text of a symbol, with emoji shown or not as `emoji` says.
    pub fn symbol(&self, kind: SymbolKind, emoji: bool) -> (r: String)
        ensures
            emoji ==> r@ == emoji_text(kind),
            !emoji ==> r@ == self.fallback(kind),
    {
        if emoji {
            match kind {
                SymbolKind::Lock => String::from_str("🔒"),
                SymbolKind::QuestionMark => String::from_str("❓"),
                SymbolKind::Rads => String::from_str("☢️"),
            }
        } else {
            match kind {
                SymbolKind::Lock => self.lock.clone(),
                SymbolKind::QuestionMark => self.question_mark.clone(),
                SymbolKind::Rads => self.rads.clone(),
            }
        }
    }
}

/// `s` padded with spaces to at least `width` characters.
pub open spec fn padded(s: Seq<char>, width: nat) -> Seq<char> {
    if s.len() >= width {
        s
    } else {
        s + Seq::new((width - s.len()) as nat, |i: int| ' ')
    }
}

/// Pads `s` with spaces to at least `width` characters.
pub fn pad_to(s: &str, width: usize) -> (r: String)
    ensures
        r@ == padded(s@, width as nat),
{
    let mut out = String::from_str(s);
    let n = s.unicode_len();
    let mut k = n;
    while k < width
        invariant
            n == s@.len(),
            k >= n,
            n >= width ==> k == n,
            n < width ==> k <= width,
            out@ == s@ + Seq::new((k - n) as nat, |i: int| ' '),
        decreases width - k,
    {
        out.append(" ");
        proof {
            reveal_strlit(" ");
            assert(out@ =~= s@ + Seq::new((k + 1 - n) as nat, |i: int| ' '));
        }
        k = k + 1;
    }
    proof {
        if n >= width {
            assert(out@ =~= s@);
        }
    }
    out
}

/// The column headers of the counters table, each word followed by a space,
/// joined by spaces.
pub open spec fn counters_header() -> Seq<char> {
    "Functions  Expressions  Impls  Traits  Methods  Dependency"@
}

/// One line of the key that explains a symbol: the symbol padded to two
/// characters, then the explanation.
pub open spec fn symbol_key_line(symbol: Seq<char>, shift: Seq<char>, text: Seq<char>) -> Seq<char> {
    "    "@ + padded(symbol, 2) + shift + " = "@ + text
}

fn symbol_key(symbol: String, shift: &str, text: &str) -> (r: String)
    ensures
        r@ == symbol_key_line(symbol@, shift@, text@),
{
    let mut out = String::from_str("    ");
    let p = pad_to(symbol.as_str(), 2);
    out.append(p.as_str());
    out.append(shift);
    out.append(" = ");
    out.append(text);
    out
}

pub open spec fn forbids_key() -> Seq<char> {
    "No `unsafe` usage found, declares #![forbid(unsafe_code)]"@
}

pub open spec fn unknown_key() -> Seq<char> {
    "No `unsafe` usage found, missing #![forbid(unsafe_code)]"@
}

pub open spec fn guilty_key() -> Seq<char> {
    "`unsafe` usage found"@
}

/// The key printed above the counters table: what `x/y` means, what each
/// symbol means, and the column headers (bold unless the output is markdown).
pub fn construct_scan_mode_default_output_key_lines(emoji_symbols: &EmojiSymbols) -> (r: Vec<String>)
    ensures
        r@.len() == 12,
        r@[0]@ == Seq::<char>::empty(),
        r@[1]@ == "Metric output format: x/y"@,
        r@[2]@ == "    x = unsafe code used by the build"@,
        r@[3]@ == "    y = total unsafe code found in the crate"@,
        r@[4]@ == Seq::<char>::empty(),
        r@[5]@ == "Symbols: "@,
        exists|e: bool|
            {
                &&& e ==> emoji_symbols.spec_charset() == Charset::Utf8
                &&& r@[6]@ == symbol_key_line(shown_symbol(*emoji_symbols, SymbolKind::Lock, e), Seq::empty(), forbids_key())
                &&& r@[7]@ == symbol_key_line(
                    shown_symbol(*emoji_symbols, SymbolKind::QuestionMark, e),
                    Seq::empty(),
                    unknown_key(),
                )
                &&& r@[8]@ == symbol_key_line(
                    shown_symbol(*emoji_symbols, SymbolKind::Rads, e),
                    if e {
                        "\r\x1B[7C"@
                    } else {
                        Seq::empty()
                    },
                    guilty_key(),
                )
            },
        r@[9]@ == Seq::<char>::empty(),
        emoji_symbols.spec_charset() == Charset::GitHubMarkdown ==> r@[10]@ == counters_header(),
        emoji_symbols.spec_charset() != Charset::GitHubMarkdown ==> r@[10]@ == counters_header() || r@[10]@
            == painted(counters_header(), "\x1B[1m"@),
        r@[11]@ == Seq::<char>::empty(),
{
    let mut lines: Vec<String> = Vec::new();
    lines.push(String::new());
    lines.push(String::from_str("Metric output format: x/y"));
    lines.push(String::from_str("    x = unsafe code used by the build"));
    lines.push(String::from_str("    y = total unsafe code found in the crate"));
    lines.push(String::new());
    lines.push(String::from_str("Symbols: "));
    let emoji = emoji_symbols.will_output_emoji();
    // The radiation icon is two characters wide but most terminals draw it in one.
    let shift = if emoji {
        "\r\x1B[7C"
    } else {
        ""
    };
    proof {
        reveal_strlit("");
    }
    lines.push(
        symbol_key(
            emoji_symbols.symbol(SymbolKind::Lock, emoji),
            "",
            "No `unsafe` usage found, declares #![forbid(unsafe_code)]",
        ),
    );
    lines.push(
        symbol_key(
            emoji_symbols.symbol(SymbolKind::QuestionMark, emoji),
            "",
            "No `unsafe` usage found, missing #![forbid(unsafe_code)]",
        ),
    );
    lines.push(symbol_key(emoji_symbols.symbol(SymbolKind::Rads, emoji), shift, "`unsafe` usage found"));
    lines.push(String::new());
    let header = String::from_str("Functions  Expressions  Impls  Traits  Methods  Dependency");
    proof {
        reveal_strlit("Functions  Expressions  Impls  Traits  Methods  Dependency");
        reveal_strlit("\x1B[0m");
        let h = counters_header();
        assert forall|i: int| 0 <= i && i + 4 <= h.len() implies #[trigger] h.subrange(i, i + 4) != "\x1B[0m"@ by {
            assert(h.subrange(i, i + 4)[0] == h[i]);
            assert("\x1B[0m"@[0] == '\x1B');
        }
    }
    match emoji_symbols.charset {
        Charset::GitHubMarkdown => lines.push(header),
        _ => lines.push(paint_bold(header)),
    }
    lines.push(String::new());
    proof {
        assert(""@ =~= Seq::<char>::empty());
        assert(symbol_lines_shown(lines@, *emoji_symbols, emoji));
    }
    lines
}

/// Lines 6 to 8 of the key show the symbols as emoji or not, as `e` says.
spec fn symbol_lines_shown(r: Seq<String>, emoji_symbols: EmojiSymbols, e: bool) -> bool {
    &&& e ==> emoji_symbols.spec_charset() == Charset::Utf8
    &&& r[6]@ == symbol_key_line(shown_symbol(emoji_symbols, SymbolKind::Lock, e), Seq::empty(), forbids_key())
    &&& r[7]@ == symbol_key_line(shown_symbol(emoji_symbols, SymbolKind::QuestionMark, e), Seq::empty(), unknown_key())
    &&& r[8]@ == symbol_key_line(
        shown_symbol(emoji_symbols, SymbolKind::Rads, e),
        if e {
            "\r\x1B[7C"@
        } else {
            Seq::empty()
        },
        guilty_key(),
    )
}

/// The key printed above the tree when only `forbid(unsafe_code)` is checked.
pub fn construct_scan_mode_forbid_only_output_key_lines(emoji_symbols: &EmojiSymbols) -> (r: Vec<String>)
    ensures
        r@.len() == 5,
        r@[0]@ == Seq::<char>::empty(),
        r@[1]@ == "Symbols: "@,
        exists|e: bool|
            {
                &&& e ==> emoji_symbols.spec_charset() == Charset::Utf8
                &&& r@[2]@ == symbol_key_line(
                    shown_symbol(*emoji_symbols, SymbolKind::Lock, e),
                    Seq::empty(),
                    "All entry point .rs files declare #![forbid(unsafe_code)]."@,
                )
                &&& r@[3]@ == symbol_key_line(
                    shown_symbol(*emoji_symbols, SymbolKind::QuestionMark, e),
                    Seq::empty(),
                    "This crate may use unsafe code."@,
                )
            },
        r@[4]@ == Seq::<char>::empty(),
{
    let mut lines: Vec<String> = Vec::new();
    lines.push(String::new());
    lines.push(String::from_str("Symbols: "));
    proof {
        reveal_strlit("");
        assert(""@ =~= Seq::<char>::empty());
    }
    let emoji = emoji_symbols.will_output_emoji();
    lines.push(
        symbol_key(
            emoji_symbols.symbol(SymbolKind::Lock, emoji),
            "",
            "All entry point .rs files declare #![forbid(unsafe_code)].",
        ),
    );
    lines.push(symbol_key(emoji_symbols.symbol(SymbolKind::QuestionMark, emoji), "", "This crate may use unsafe code."));
    lines.push(String::new());
    let ghost r = lines@;
    assert(r[2]@ == symbol_key_line(
        shown_symbol(*emoji_symbols, SymbolKind::Lock, emoji),
        Seq::empty(),
        "All entry point .rs files declare #![forbid(unsafe_code)]."@,
    ));
    lines
}

} // verus!
