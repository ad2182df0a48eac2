//! Stacktraces compressed: framework frames removed, user frames kept.
//!
//! Recognises traces of Node.js, Python, Rust, Go and Java. Repeated lines
//! are collapsed first; text in which no trace is recognised comes back with
//! only that done, and unchanged when no line repeats.

use vstd::prelude::*;
use crate::pattern::{group_or, regex_accepts, regex_captures, Groups, Pattern};
use crate::text::{
    all_digits, digits_value, chars_of, dec, join, join_with, push_chars, push_dec, push_spaces, push_str, split_lines, split_lines_of,
    starts_with, string_of, trim, trim_chars, occurs_at, occurs_at_index, slice_chars, spaces, is_space,
    is_space_char,
};

verus! {

/// A Node.js frame with a location in parentheses.
pub const NODE_FRAME: &'static str = r"^\s+at\s+.+\(.+:\d+:\d+\)";

/// A Node.js frame with a bare location.
pub const NODE_FRAME_BARE: &'static str = r"^\s+at\s+.+:\d+:\d+";

/// The first line of a Python traceback.
pub const PYTHON_TRACEBACK: &'static str = r"^Traceback \(most recent call last\)";

/// A Python frame: file and line.
pub const PYTHON_FILE: &'static str = r#"^\s+File "(.+)", line (\d+)"#;

/// A Rust panic message.
pub const RUST_PANIC: &'static str = r"^thread '.*' panicked at";

/// A Go goroutine header.
pub const GO_GOROUTINE: &'static str = r"^goroutine \d+";

/// Node.js frames of libraries and of the runtime.
pub const NODE_FRAMEWORK: &'static str = r"node_modules/|node:internal/";

/// Python frames of libraries and of the interpreter.
pub const PYTHON_FRAMEWORK: &'static str = r"site-packages/|/usr/lib/python|importlib|_bootstrap";

/// Java frames of reflection and of Spring.
pub const JAVA_FRAMEWORK: &'static str = r"java\.lang\.reflect\.|sun\.reflect\.|org\.springframework\.";

/// Go frames of the runtime and of net/http.
pub const GO_FRAMEWORK: &'static str = r"^\s*(runtime/|runtime/debug\.|net/http\.)";

/// A Go frame's file line.
pub const GO_FRAME: &'static str = r"^\s+.+\.go:\d+";

/// A Go frame's function line.
pub const GO_FUNC: &'static str = r"^[\w./]+\(";

/// Rust frames of the runtime and of tokio.
pub const RUST_FRAMEWORK: &'static str = r"std::rt::|tokio::runtime::|std::panicking::";

/// A numbered frame of a Rust backtrace.
pub const RUST_BACKTRACE_FRAME: &'static str = r"^\s+\d+:";

/// A Node.js frame: function (optional), file, line.
pub const NODE_EXTRACT: &'static str = r"^\s+at\s+(?:(.+?)\s+\()?(.+):(\d+):\d+\)?";

/// A Java frame: method, file, line.
pub const JAVA_EXTRACT: &'static str = r"^\s+at\s+([\w.$]+)\(([\w.]+):(\d+)\)";

/// The language of a stacktrace.
#[derive(Debug, Clone, Copy, PartialEq, Eq, Structural)]
pub enum Language {
    NodeJs,
    Python,
    Rust,
    Go,
    Java,
}

// ---------------------------------------------------------------------------
// Meaning: what the patterns find
// ---------------------------------------------------------------------------

/// What the stacktrace patterns find on one line.
pub struct TraceLineView {
    pub node_frame: bool,
    pub node_frame_bare: bool,
    pub node_framework: bool,
    pub node_extract: Option<Groups>,
    pub python_traceback: bool,
    pub python_file: Option<Groups>,
    /// The file of a Python frame is a library's or the interpreter's.
    pub python_framework: bool,
    pub rust_panic: bool,
    pub rust_frame: bool,
    pub rust_framework: bool,
    pub goroutine: bool,
    pub go_frame: bool,
    /// Checked on the line without surrounding whitespace.
    pub go_func: bool,
    pub go_framework: bool,
    pub java_extract: Option<Groups>,
    pub java_framework: bool,
}

/// The regex of `pattern` matches somewhere in `text`.
pub open spec fn finds(pattern: &str, text: Seq<char>) -> bool {
    regex_captures(pattern@, text) is Some
}

/// The file named by a Python frame, `?` where it has none.
pub open spec fn python_file_of(g: Groups) -> Seq<char> {
    group_or(g, 1, "?"@)
}

/// What the regexes find on `line`.
pub open spec fn trace_line_view(line: Seq<char>) -> TraceLineView {
    let py = regex_captures(PYTHON_FILE@, line);
    TraceLineView {
        node_frame: finds(NODE_FRAME, line),
        node_frame_bare: finds(NODE_FRAME_BARE, line),
        node_framework: finds(NODE_FRAMEWORK, line),
        node_extract: regex_captures(NODE_EXTRACT@, line),
        python_traceback: finds(PYTHON_TRACEBACK, line),
        python_file: py,
        python_framework: py is Some && finds(PYTHON_FRAMEWORK, python_file_of(py->0)),
        rust_panic: finds(RUST_PANIC, line),
        rust_frame: finds(RUST_BACKTRACE_FRAME, line),
        rust_framework: finds(RUST_FRAMEWORK, line),
        goroutine: finds(GO_GOROUTINE, line),
        go_frame: finds(GO_FRAME, line),
        go_func: finds(GO_FUNC, trim(line)),
        go_framework: finds(GO_FRAMEWORK, line),
        java_extract: regex_captures(JAVA_EXTRACT@, line),
        java_framework: finds(JAVA_FRAMEWORK, line),
    }
}

/// What the patterns find on each of `lines`.
pub open spec fn lines_traced(lines: Seq<Seq<char>>) -> Seq<TraceLineView> {
    lines.map_values(|l: Seq<char>| trace_line_view(l))
}

/// Every pattern is accepted by the regex engine.
pub open spec fn trace_patterns_accepted() -> bool {
    &&& regex_accepts(NODE_FRAME@)
    &&& regex_accepts(NODE_FRAME_BARE@)
    &&& regex_accepts(PYTHON_TRACEBACK@)
    &&& regex_accepts(PYTHON_FILE@)
    &&& regex_accepts(RUST_PANIC@)
    &&& regex_accepts(GO_GOROUTINE@)
    &&& regex_accepts(NODE_FRAMEWORK@)
    &&& regex_accepts(PYTHON_FRAMEWORK@)
    &&& regex_accepts(JAVA_FRAMEWORK@)
    &&& regex_accepts(GO_FRAMEWORK@)
    &&& regex_accepts(GO_FRAME@)
    &&& regex_accepts(GO_FUNC@)
    &&& regex_accepts(RUST_FRAMEWORK@)
    &&& regex_accepts(RUST_BACKTRACE_FRAME@)
    &&& regex_accepts(NODE_EXTRACT@)
    &&& regex_accepts(JAVA_EXTRACT@)
}

// ---------------------------------------------------------------------------
// Meaning: repeated lines
// ---------------------------------------------------------------------------

/// How many lines from `i` on equal line `i`, one after another.
pub open spec fn run_len(ls: Seq<Seq<char>>, i: int) -> nat
    decreases ls.len() - i,
{
    if 0 <= i && i + 1 < ls.len() && ls[i + 1] == ls[i] {
        1 + run_len(ls, i + 1)
    } else {
        1
    }
}

/// A run holds at least its first line and stays within the lines.
pub proof fn lemma_run_len_bounds(ls: Seq<Seq<char>>, i: int)
    requires
        0 <= i < ls.len(),
    ensures
        1 <= run_len(ls, i) <= ls.len() - i,
        forall|k: int| i <= k < i + run_len(ls, i) ==> ls[k] == ls[i],
    decreases ls.len() - i,
{
    if i + 1 < ls.len() && ls[i + 1] == ls[i] {
        lemma_run_len_bounds(ls, i + 1);
    }
}

/// The note after a line that came `n` times in a row.
pub open spec fn repeat_note(n: nat) -> Seq<char> {
    "  (repeated "@ + dec(n) + " times)"@
}

/// The lines from `i` on, each run of equal lines kept once and followed by
/// a note of its length when longer than one.
pub open spec fn collapse_runs(ls: Seq<Seq<char>>, i: int) -> Seq<Seq<char>>
    decreases ls.len() - i,
{
    if i < 0 || i >= ls.len() {
        seq![]
    } else {
        let n = run_len(ls, i);
        proof {
            lemma_run_len_bounds(ls, i);
        }
        seq![ls[i]] + (if n > 1 {
            seq![repeat_note(n)]
        } else {
            seq![]
        }) + collapse_runs(ls, i + n)
    }
}

/// Some line of `ls` equals the one before it.
pub open spec fn has_repeat(ls: Seq<Seq<char>>) -> bool {
    exists|k: int| 0 <= k < ls.len() - 1 && ls[k] == #[trigger] ls[k + 1]
}

/// `s` with repeated lines collapsed; text in which no line equals the one
/// before it comes back unchanged, line endings included.
pub open spec fn dedup_repeated(s: Seq<char>) -> Seq<char> {
    let ls = split_lines(s);
    if ls.len() < 2 || !has_repeat(ls) {
        s
    } else {
        join(collapse_runs(ls, 0), "\n"@)
    }
}

// ---------------------------------------------------------------------------
// Meaning: detecting the language
// ---------------------------------------------------------------------------

/// The first of lines `i..` that marks a Python, Rust or Go trace.
pub open spec fn detect_marked(ms: Seq<TraceLineView>, i: int) -> Option<Language>
    decreases ms.len() - i,
{
    if i < 0 || i >= ms.len() {
        None
    } else if ms[i].python_traceback || ms[i].python_file is Some {
        Some(Language::Python)
    } else if ms[i].rust_panic {
        Some(Language::Rust)
    } else if ms[i].goroutine {
        Some(Language::Go)
    } else {
        detect_marked(ms, i + 1)
    }
}

/// A frame whose method has a `.` and no `/`: a Java package path.
pub open spec fn java_method_like(g: Groups) -> bool {
    let m = group_or(g, 1, seq![]);
    m.contains('.') && !m.contains('/')
}

/// The first of lines `i..` that is a Java or a Node.js frame.
pub open spec fn detect_frames(ms: Seq<TraceLineView>, i: int) -> Option<Language>
    decreases ms.len() - i,
{
    if i < 0 || i >= ms.len() {
        None
    } else if ms[i].java_extract is Some && java_method_like(ms[i].java_extract->0) {
        Some(Language::Java)
    } else if ms[i].node_frame || ms[i].node_frame_bare {
        Some(Language::NodeJs)
    } else {
        detect_frames(ms, i + 1)
    }
}

/// The language of the trace, given what the patterns find on its lines.
pub open spec fn detect(ms: Seq<TraceLineView>) -> Option<Language> {
    match detect_marked(ms, 0) {
        Some(l) => Some(l),
        None => detect_frames(ms, 0),
    }
}

// ---------------------------------------------------------------------------
// Meaning: compressing
// ---------------------------------------------------------------------------

/// What a line of a trace becomes.
pub enum LineRole {
    /// A framework frame: dropped and counted.
    Hidden,
    /// The rest of a framework frame already counted: dropped.
    Dropped,
    /// A user frame: shown as this text.
    Frame(Seq<char>),
    /// Any other line: kept as it is.
    Plain,
}

/// The note that stands for `n` dropped frames.
pub open spec fn hidden_note(n: nat) -> Seq<char> {
    "  (+ "@ + dec(n) + " framework frames hidden)"@
}

/// The note for `n` dropped frames, if there are any.
pub open spec fn flush(n: nat) -> Seq<Seq<char>> {
    if n > 0 {
        seq![hidden_note(n)]
    } else {
        seq![]
    }
}

/// The output lines for lines `i..`, `hidden` frames dropped just before.
pub open spec fn fold_roles(roles: Seq<LineRole>, lines: Seq<Seq<char>>, i: int, hidden: nat) -> Seq<
    Seq<char>,
>
    decreases roles.len() - i,
{
    if i < 0 || i >= roles.len() {
        flush(hidden)
    } else {
        match roles[i] {
            LineRole::Hidden => fold_roles(roles, lines, i + 1, hidden + 1),
            LineRole::Dropped => fold_roles(roles, lines, i + 1, hidden),
            LineRole::Frame(t) => seq![t] + fold_roles(roles, lines, i + 1, hidden),
            LineRole::Plain => flush(hidden) + seq![lines[i]] + fold_roles(roles, lines, i + 1, 0),
        }
    }
}

/// A user frame as shown: an arrow and the rest of the line.
pub open spec fn arrow_line(t: Seq<char>) -> Seq<char> {
    "  → "@ + t
}

/// A frame with file, line and function as shown.
pub open spec fn located_frame(file: Seq<char>, num: Seq<char>, func: Seq<char>) -> Seq<char> {
    "  → "@ + file + ":"@ + num + "         "@ + func + "()"@
}

/// The index of the first `t` in `s` from `i` on; -1 without one.
pub open spec fn first_index(s: Seq<char>, t: Seq<char>, i: int) -> int
    decreases s.len() - i,
{
    if i < 0 || i >= s.len() {
        -1
    } else if occurs_at(s, t, i) {
        i
    } else {
        first_index(s, t, i + 1)
    }
}

/// The file of a Node.js frame, `?` where it has none.
pub open spec fn node_file(g: Groups) -> Seq<char> {
    trim(group_or(g, 2, "?"@))
}

/// The line is a Node.js frame whose file and line were found.
pub open spec fn node_located(m: TraceLineView) -> bool {
    (m.node_frame || m.node_frame_bare) && m.node_extract is Some
}

/// The project's directory, as the frames of its `node_modules` show it:
/// what comes before `node_modules/` in the first frame under
/// `/node_modules/`, from line `i` on; nothing without such a frame.
pub open spec fn node_root(ms: Seq<TraceLineView>, i: int) -> Seq<char>
    decreases ms.len() - i,
{
    if i < 0 || i >= ms.len() {
        seq![]
    } else if node_located(ms[i]) && first_index(node_file(ms[i].node_extract->0), "/node_modules/"@, 0) >= 0 {
        node_file(ms[i].node_extract->0).take(first_index(node_file(ms[i].node_extract->0), "/node_modules/"@, 0) + 1)
    } else {
        node_root(ms, i + 1)
    }
}

/// A file as shown: relative to the project's directory where it lies in it.
pub open spec fn shown_file(file: Seq<char>, root: Seq<char>) -> Seq<char> {
    if root.len() > 0 && starts_with(file, root) {
        file.skip(root.len() as int)
    } else {
        file
    }
}

/// The location of a Node.js frame as shown: file and line.
pub open spec fn node_loc(g: Groups, root: Seq<char>) -> Seq<char> {
    shown_file(node_file(g), root) + ":"@ + group_or(g, 3, "?"@)
}

/// The line is a Node.js user frame whose file and line were found.
pub open spec fn node_user_frame(m: TraceLineView) -> bool {
    node_located(m) && !m.node_framework
}

/// The widest location of the Node.js user frames among `ms`.
pub open spec fn node_width(ms: Seq<TraceLineView>, root: Seq<char>) -> nat
    decreases ms.len(),
{
    if ms.len() == 0 {
        0
    } else {
        let w = node_width(ms.drop_last(), root);
        let n = if node_user_frame(ms.last()) {
            node_loc(ms.last().node_extract->0, root).len()
        } else {
            0
        };
        if n > w {
            n
        } else {
            w
        }
    }
}

/// A Node.js user frame as shown: its location padded to `width`, then the
/// function, so that the functions of a trace stand in one column.
pub open spec fn node_frame_line(loc: Seq<char>, func: Seq<char>, width: nat) -> Seq<char> {
    "  → "@ + loc + spaces(
        if width > loc.len() {
            (width - loc.len()) as nat
        } else {
            0
        },
    ) + "   "@ + func + "()"@
}

/// What a Node.js line becomes, the project's directory being `root` and
/// the widest location `width`.
pub open spec fn node_role(line: Seq<char>, m: TraceLineView, root: Seq<char>, width: nat) -> LineRole {
    if m.node_frame || m.node_frame_bare {
        if m.node_framework {
            LineRole::Hidden
        } else if m.node_extract is Some {
            let g = m.node_extract->0;
            LineRole::Frame(node_frame_line(node_loc(g, root), trim(group_or(g, 1, "<anonymous>"@)), width))
        } else {
            LineRole::Frame(arrow_line(trim(line)))
        }
    } else {
        LineRole::Plain
    }
}

/// What a line of a Rust backtrace becomes.
pub open spec fn rust_role(line: Seq<char>, m: TraceLineView) -> LineRole {
    if m.rust_frame {
        if m.rust_framework {
            LineRole::Hidden
        } else {
            LineRole::Frame(arrow_line(trim(line)))
        }
    } else {
        LineRole::Plain
    }
}

/// The function line of a Go frame of the runtime or of net/http.
pub open spec fn go_hidden_func(m: TraceLineView) -> bool {
    m.go_func && m.go_framework
}

/// What a line of a Go trace becomes; `after_hidden` when the line before it
/// opens a hidden frame, whose file line it then is.
pub open spec fn go_role(line: Seq<char>, m: TraceLineView, after_hidden: bool) -> LineRole {
    if m.go_frame || m.go_func {
        if m.go_framework {
            LineRole::Hidden
        } else if after_hidden && m.go_frame {
            LineRole::Dropped
        } else {
            LineRole::Frame(arrow_line(trim(line)))
        }
    } else {
        LineRole::Plain
    }
}

/// What a line of a Java trace becomes.
pub open spec fn java_role(line: Seq<char>, m: TraceLineView) -> LineRole {
    if m.java_extract is Some {
        if m.java_framework {
            LineRole::Hidden
        } else {
            let g = m.java_extract->0;
            LineRole::Frame(located_frame(group_or(g, 2, "?"@), group_or(g, 3, "?"@), group_or(g, 1, "?"@)))
        }
    } else {
        LineRole::Plain
    }
}

/// What each line becomes in a trace of `lang` (not Python): `after_hidden`
/// when the line before it opens a hidden Go frame; `root` and `width` as
/// for Node.js.
pub open spec fn role_of(
    lang: Language,
    line: Seq<char>,
    m: TraceLineView,
    after_hidden: bool,
    root: Seq<char>,
    width: nat,
) -> LineRole {
    match lang {
        Language::NodeJs => node_role(line, m, root, width),
        Language::Rust => rust_role(line, m),
        Language::Go => go_role(line, m, after_hidden),
        _ => java_role(line, m),
    }
}

/// The roles of all lines in a trace of `lang`.
pub open spec fn roles(lang: Language, lines: Seq<Seq<char>>, ms: Seq<TraceLineView>) -> Seq<LineRole> {
    let root = node_root(ms, 0);
    let width = node_width(ms, root);
    Seq::new(ms.len(), |i: int| role_of(lang, lines[i], ms[i], i > 0 && go_hidden_func(ms[i - 1]), root, width))
}

/// A Python frame as shown, with the code line after it if there is one.
pub open spec fn python_frame(file: Seq<char>, num: Seq<char>, code: Seq<char>) -> Seq<char> {
    if code.len() == 0 {
        "  → "@ + file + ":"@ + num
    } else {
        "  → "@ + file + ":"@ + num + "         "@ + code
    }
}

/// Line `i` is the code line of the frame before it: indented, not blank,
/// and no frame itself.
pub open spec fn python_code_line(ms: Seq<TraceLineView>, lines: Seq<Seq<char>>, i: int) -> bool {
    &&& 0 <= i < ms.len()
    &&& ms[i].python_file is None
    &&& lines[i].len() > 0
    &&& is_space(lines[i][0])
    &&& trim(lines[i]).len() > 0
}

/// The output lines of a Python trace from line `i` on, `hidden` frames
/// dropped just before.
pub open spec fn python_fold(ms: Seq<TraceLineView>, lines: Seq<Seq<char>>, i: int, hidden: nat) -> Seq<
    Seq<char>,
>
    decreases ms.len() - i,
{
    if i < 0 || i >= ms.len() {
        flush(hidden)
    } else if ms[i].python_file is Some {
        let g = ms[i].python_file->0;
        let file = python_file_of(g);
        let num = group_or(g, 2, "?"@);
        if ms[i].python_framework {
            if python_code_line(ms, lines, i + 1) {
                python_fold(ms, lines, i + 2, hidden + 1)
            } else {
                python_fold(ms, lines, i + 1, hidden + 1)
            }
        } else if python_code_line(ms, lines, i + 1) {
            seq![python_frame(file, num, trim(lines[i + 1]))] + python_fold(ms, lines, i + 2, hidden)
        } else {
            seq![python_frame(file, num, seq![])] + python_fold(ms, lines, i + 1, hidden)
        }
    } else {
        flush(hidden) + seq![lines[i]] + python_fold(ms, lines, i + 1, 0)
    }
}

/// `lines` compressed as a trace of `lang`, given what the patterns find on
/// them.
pub open spec fn compress_lines(lang: Language, lines: Seq<Seq<char>>, ms: Seq<TraceLineView>) -> Seq<char> {
    if lang == Language::Python {
        join(python_fold(ms, lines, 0, 0), "\n"@)
    } else {
        join(fold_roles(roles(lang, lines, ms), lines, 0, 0), "\n"@)
    }
}

/// `text` compressed as a trace of `lang`, given what the patterns find on
/// its lines.
pub open spec fn compress_as(lang: Language, text: Seq<char>, ms: Seq<TraceLineView>) -> Seq<char> {
    compress_lines(lang, split_lines(text), ms)
}

/// `text` (repeats already collapsed) compressed, given what the patterns
/// find on its lines; unchanged when no trace is recognised.
pub open spec fn compress_text(text: Seq<char>, ms: Seq<TraceLineView>) -> Seq<char> {
    match detect(ms) {
        Some(lang) => compress_as(lang, text, ms),
        None => text,
    }
}

/// What `compress_errors` gives for `input`, given what the patterns find on
/// the lines of `input` once its repeats are collapsed.
pub open spec fn compress_output(input: Seq<char>, ms: Seq<TraceLineView>) -> Seq<char> {
    compress_text(dedup_repeated(input), ms)
}

// ---------------------------------------------------------------------------
// Code: matching
// ---------------------------------------------------------------------------

/// What the stacktrace patterns found on one line.
pub struct TraceLineMatches {
    pub node_frame: bool,
    pub node_frame_bare: bool,
    pub node_framework: bool,
    pub node_extract: Option<Vec<Option<String>>>,
    pub python_traceback: bool,
    pub python_file: Option<Vec<Option<String>>>,
    pub python_framework: bool,
    pub rust_panic: bool,
    pub rust_frame: bool,
    pub rust_framework: bool,
    pub goroutine: bool,
    pub go_frame: bool,
    pub go_func: bool,
    pub go_framework: bool,
    pub java_extract: Option<Vec<Option<String>>>,
    pub java_framework: bool,
}

impl View for TraceLineMatches {
    type V = TraceLineView;

    open spec fn view(&self) -> TraceLineView {
        TraceLineView {
            node_frame: self.node_frame,
            node_frame_bare: self.node_frame_bare,
            node_framework: self.node_framework,
            node_extract: self.node_extract.deep_view(),
            python_traceback: self.python_traceback,
            python_file: self.python_file.deep_view(),
            python_framework: self.python_framework,
            rust_panic: self.rust_panic,
            rust_frame: self.rust_frame,
            rust_framework: self.rust_framework,
            goroutine: self.goroutine,
            go_frame: self.go_frame,
            go_func: self.go_func,
            go_framework: self.go_framework,
            java_extract: self.java_extract.deep_view(),
            java_framework: self.java_framework,
        }
    }
}

/// The values of per-line matches.
pub open spec fn trace_views(ms: Seq<TraceLineMatches>) -> Seq<TraceLineView> {
    ms.map_values(|m: TraceLineMatches| m@)
}

/// The stacktrace regexes, built.
pub struct TracePatterns {
    node_frame: Pattern,
    node_frame_bare: Pattern,
    python_traceback: Pattern,
    python_file: Pattern,
    rust_panic: Pattern,
    goroutine: Pattern,
    node_framework: Pattern,
    python_framework: Pattern,
    java_framework: Pattern,
    go_framework: Pattern,
    go_frame: Pattern,
    go_func: Pattern,
    rust_framework: Pattern,
    rust_frame: Pattern,
    node_extract: Pattern,
    java_extract: Pattern,
}

/// Builds one regex.
fn build_one(pattern: &str) -> (r: Option<Pattern>)
    ensures
        r is Some == regex_accepts(pattern@),
        r matches Some(p) ==> p.source() == pattern@,
{
    Pattern::build(pattern)
}

impl TracePatterns {
    /// Each regex was built from its pattern.
    pub closed spec fn wf(&self) -> bool {
        &&& self.node_frame.source() == NODE_FRAME@
        &&& self.node_frame_bare.source() == NODE_FRAME_BARE@
        &&& self.python_traceback.source() == PYTHON_TRACEBACK@
        &&& self.python_file.source() == PYTHON_FILE@
        &&& self.rust_panic.source() == RUST_PANIC@
        &&& self.goroutine.source() == GO_GOROUTINE@
        &&& self.node_framework.source() == NODE_FRAMEWORK@
        &&& self.python_framework.source() == PYTHON_FRAMEWORK@
        &&& self.java_framework.source() == JAVA_FRAMEWORK@
        &&& self.go_framework.source() == GO_FRAMEWORK@
        &&& self.go_frame.source() == GO_FRAME@
        &&& self.go_func.source() == GO_FUNC@
        &&& self.rust_framework.source() == RUST_FRAMEWORK@
        &&& self.rust_frame.source() == RUST_BACKTRACE_FRAME@
        &&& self.node_extract.source() == NODE_EXTRACT@
        &&& self.java_extract.source() == JAVA_EXTRACT@
    }

    /// Builds every regex; `None` if the engine refuses one.
    pub fn build() -> (r: Option<TracePatterns>)
        ensures
            r is Some == trace_patterns_accepted(),
            r matches Some(p) ==> p.wf(),
    {
        let a = build_one(NODE_FRAME);
        let b = build_one(NODE_FRAME_BARE);
        let c = build_one(PYTHON_TRACEBACK);
        let d = build_one(PYTHON_FILE);
        let e = build_one(RUST_PANIC);
        let f = build_one(GO_GOROUTINE);
        let g = build_one(NODE_FRAMEWORK);
        let h = build_one(PYTHON_FRAMEWORK);
        let i = build_one(JAVA_FRAMEWORK);
        let j = build_one(GO_FRAMEWORK);
        let k = build_one(GO_FRAME);
        let l = build_one(GO_FUNC);
        let m = build_one(RUST_FRAMEWORK);
        let n = build_one(RUST_BACKTRACE_FRAME);
        let o = build_one(NODE_EXTRACT);
        let p = build_one(JAVA_EXTRACT);
        match (a, b, c, d, e, f, g, h) {
            (Some(a), Some(b), Some(c), Some(d), Some(e), Some(f), Some(g), Some(h)) => match (
                i,
                j,
                k,
                l,
                m,
                n,
                o,
                p,
            ) {
                (Some(i), Some(j), Some(k), Some(l), Some(m), Some(n), Some(o), Some(p)) => Some(
                    TracePatterns {
                        node_frame: a,
                        node_frame_bare: b,
                        python_traceback: c,
                        python_file: d,
                        rust_panic: e,
                        goroutine: f,
                        node_framework: g,
                        python_framework: h,
                        java_framework: i,
                        go_framework: j,
                        go_frame: k,
                        go_func: l,
                        rust_framework: m,
                        rust_frame: n,
                        node_extract: o,
                        java_extract: p,
                    },
                ),
                _ => None,
            },
            _ => None,
        }
    }

    /// The line is a frame of Node.js libraries or of its runtime.
    pub fn is_node_framework_frame(&self, line: &[char]) -> (r: bool)
        requires
            self.wf(),
        ensures
            r == finds(NODE_FRAMEWORK, line@),
    {
        self.node_framework.captures_in(line).is_some()
    }

    /// What each pattern finds on `line`.
    pub fn match_line(&self, line: &[char]) -> (r: TraceLineMatches)
        requires
            self.wf(),
        ensures
            r@ == trace_line_view(line@),
    {
        let python_file = self.python_file.captures_in(line);
        let python_framework = match &python_file {
            Some(g) => {
                let file = crate::pattern::group_chars_or(g, 1, "?");
                self.python_framework.captures_in(&file).is_some()
            },
            None => false,
        };
        let trimmed = trim_chars(line);
        TraceLineMatches {
            node_frame: self.node_frame.captures_in(line).is_some(),
            node_frame_bare: self.node_frame_bare.captures_in(line).is_some(),
            node_framework: self.is_node_framework_frame(line),
            node_extract: self.node_extract.captures_in(line),
            python_traceback: self.python_traceback.captures_in(line).is_some(),
            python_file,
            python_framework,
            rust_panic: self.rust_panic.captures_in(line).is_some(),
            rust_frame: self.rust_frame.captures_in(line).is_some(),
            rust_framework: self.rust_framework.captures_in(line).is_some(),
            goroutine: self.goroutine.captures_in(line).is_some(),
            go_frame: self.go_frame.captures_in(line).is_some(),
            go_func: self.go_func.captures_in(&trimmed).is_some(),
            go_framework: self.go_framework.captures_in(line).is_some(),
            java_extract: self.java_extract.captures_in(line),
            java_framework: self.java_framework.captures_in(line).is_some(),
        }
    }

    /// What each pattern finds on each of `lines`.
    pub fn match_lines(&self, lines: &Vec<Vec<char>>) -> (r: Vec<TraceLineMatches>)
        requires
            self.wf(),
        ensures
            r.len() == lines.len(),
            trace_views(r@) == lines_traced(lines.deep_view()),
    {
        let mut r: Vec<TraceLineMatches> = Vec::new();
        let mut i: usize = 0;
        while i < lines.len()
            invariant
                self.wf(),
                0 <= i <= lines.len(),
                r.len() == i,
                trace_views(r@) == lines_traced(lines.deep_view()).take(i as int),
            decreases lines.len() - i,
        {
            let m = self.match_line(&lines[i]);
            proof {
                assert(lines@[i as int].deep_view() =~= lines@[i as int]@);
            }
            r.push(m);
            i += 1;
            assert(trace_views(r@) =~= lines_traced(lines.deep_view()).take(i as int));
        }
        assert(lines_traced(lines.deep_view()).take(i as int) =~= lines_traced(lines.deep_view()));
        r
    }
}

// ---------------------------------------------------------------------------
// Code: repeated lines
// ---------------------------------------------------------------------------

/// The note after a line that came `n` times in a row.
fn repeat_note_of(n: usize) -> (r: Vec<char>)
    ensures
        r@ == repeat_note(n as nat),
{
    let mut r: Vec<char> = Vec::new();
    push_str(&mut r, "  (repeated ");
    push_dec(&mut r, n);
    push_str(&mut r, " times)");
    r
}

/// Some line equals the one before it.
fn has_adjacent_repeat(lines: &Vec<Vec<char>>) -> (r: bool)
    ensures
        r == has_repeat(lines.deep_view()),
{
    let ghost lv = lines.deep_view();
    let mut k: usize = 0;
    while k < lines.len() && k + 1 < lines.len()
        invariant
            lv == lines.deep_view(),
            k <= lines.len(),
            forall|j: int| 0 <= j < k ==> lv[j] != #[trigger] lv[j + 1],
        decreases lines.len() - k,
    {
        assert(lines@[k as int].deep_view() =~= lines@[k as int]@);
        assert(lines@[k + 1].deep_view() =~= lines@[k + 1]@);
        if crate::text::same_chars(&lines[k], &lines[k + 1]) {
            assert(lv[k as int] == lv[k + 1]);
            return true;
        }
        k += 1;
    }
    assert forall|j: int| 0 <= j < lv.len() - 1 implies lv[j] != #[trigger] lv[j + 1] by {
        assert(j < k);
    }
    false
}

/// Collapses runs of identical lines: the first line of a run, then
/// `  (repeated N times)` when it came N > 1 times. Text of fewer than two
/// lines, or in which no line equals the one before it, comes back unchanged.
pub fn deduplicate_repeated_errors(input: &str) -> (out: String)
    ensures
        out@ == dedup_repeated(input@),
{
    let chars = chars_of(input);
    let lines = split_lines_of(&chars);
    if lines.len() < 2 || !has_adjacent_repeat(&lines) {
        return input.to_owned();
    }
    let ghost lv = lines.deep_view();
    let ghost total = collapse_runs(lv, 0);
    let mut result: Vec<Vec<char>> = Vec::new();
    let mut i: usize = 0;
    assert(result.deep_view() + total =~= total);
    while i < lines.len()
        invariant
            0 <= i <= lines.len(),
            lv == lines.deep_view(),
            total == collapse_runs(lv, 0),
            result.deep_view() + collapse_runs(lv, i as int) == total,
        decreases lines.len() - i,
    {
        let mut count: usize = 1;
        while i + count < lines.len() && crate::text::same_chars(&lines[i + count], &lines[i])
            invariant
                0 <= i < lines.len(),
                1 <= count,
                i + count <= lines.len(),
                lv == lines.deep_view(),
                forall|k: int| i <= k < i + count ==> lv[k] == lv[i as int],
                run_len(lv, i as int) == (count - 1) + run_len(lv, i + count - 1),
            decreases lines.len() - i - count,
        {
            assert(lines@[i + count].deep_view() =~= lines@[i + count]@);
            assert(lines@[i as int].deep_view() =~= lines@[i as int]@);
            assert(lv[i + count] == lv[i + count - 1]);
            count += 1;
        }
        proof {
            if i + count < lines.len() {
                assert(lines@[i + count].deep_view() =~= lines@[i + count]@);
                assert(lines@[i as int].deep_view() =~= lines@[i as int]@);
            }
            assert(run_len(lv, i + count - 1) == 1);
            lemma_run_len_bounds(lv, i as int);
        }
        let ghost before = result.deep_view();
        let first = crate::text::copy_line(&lines[i]);
        assert(first.deep_view() =~= lv[i as int]);
        result.push(first);
        if count > 1 {
            let note = repeat_note_of(count);
            assert(note.deep_view() =~= note@);
            result.push(note);
            assert(result.deep_view() =~= before + seq![lv[i as int]] + seq![repeat_note(count as nat)]);
        } else {
            assert(result.deep_view() =~= before + seq![lv[i as int]] + Seq::<Seq<char>>::empty());
        }
        i += count;
    }
    let nl = chars_of("\n");
    let joined = join_with(&result, &nl);
    string_of(&joined)
}

// ---------------------------------------------------------------------------
// Code: detecting the language
// ---------------------------------------------------------------------------

/// `c` occurs in `s`.
fn has_char(s: &[char], c: char) -> (r: bool)
    ensures
        r == s@.contains(c),
{
    let mut i: usize = 0;
    while i < s.len()
        invariant
            0 <= i <= s.len(),
            forall|k: int| 0 <= k < i ==> s@[k] != c,
        decreases s.len() - i,
    {
        if s[i] == c {
            return true;
        }
        i += 1;
    }
    false
}

/// The language of a trace, given what the patterns found on its lines.
pub fn detect_language_matched(ms: &Vec<TraceLineMatches>) -> (r: Option<Language>)
    ensures
        r == detect(trace_views(ms@)),
{
    let ghost mv = trace_views(ms@);
    let mut i: usize = 0;
    while i < ms.len()
        invariant
            0 <= i <= ms.len(),
            mv == trace_views(ms@),
            detect_marked(mv, 0) == detect_marked(mv, i as int),
        decreases ms.len() - i,
    {
        let m = &ms[i];
        if m.python_traceback || m.python_file.is_some() {
            return Some(Language::Python);
        }
        if m.rust_panic {
            return Some(Language::Rust);
        }
        if m.goroutine {
            return Some(Language::Go);
        }
        i += 1;
    }
    let mut j: usize = 0;
    while j < ms.len()
        invariant
            0 <= j <= ms.len(),
            mv == trace_views(ms@),
            detect_marked(mv, 0) is None,
            detect_frames(mv, 0) == detect_frames(mv, j as int),
        decreases ms.len() - j,
    {
        let m = &ms[j];
        match &m.java_extract {
            Some(g) => {
                let method = crate::pattern::group_chars_or(g, 1, "");
                proof {
                    reveal_strlit("");
                    assert(""@ =~= Seq::<char>::empty());
                }
                if has_char(&method, '.') && !has_char(&method, '/') {
                    return Some(Language::Java);
                }
            },
            None => {},
        }
        if m.node_frame || m.node_frame_bare {
            return Some(Language::NodeJs);
        }
        j += 1;
    }
    None
}

/// The language of the stacktrace in `input`, if one is recognised.
pub fn detect_language(input: &str) -> (r: Option<Language>)
    ensures
        r == if trace_patterns_accepted() {
            detect(lines_traced(split_lines(input@)))
        } else {
            None
        },
{
    match TracePatterns::build() {
        None => None,
        Some(p) => {
            let chars = chars_of(input);
            let lines = split_lines_of(&chars);
            let ms = p.match_lines(&lines);
            detect_language_matched(&ms)
        },
    }
}

// ---------------------------------------------------------------------------
// Code: compressing
// ---------------------------------------------------------------------------

/// What a line of a trace becomes.
enum Role {
    Hidden,
    Dropped,
    Frame(Vec<char>),
    Plain,
}

impl View for Role {
    type V = LineRole;

    closed spec fn view(&self) -> LineRole {
        match self {
            Role::Hidden => LineRole::Hidden,
            Role::Dropped => LineRole::Dropped,
            Role::Frame(t) => LineRole::Frame(t@),
            Role::Plain => LineRole::Plain,
        }
    }
}

/// The values of roles.
spec fn role_views(rs: Seq<Role>) -> Seq<LineRole> {
    rs.map_values(|r: Role| r@)
}

/// `  → ` and the text `t`.
fn arrow_of(t: &[char]) -> (r: Vec<char>)
    ensures
        r@ == arrow_line(t@),
{
    let mut r: Vec<char> = Vec::new();
    push_str(&mut r, "  → ");
    push_chars(&mut r, t);
    r
}

/// A frame with file, line and function as shown.
fn located_frame_of(file: &[char], num: &[char], func: &[char]) -> (r: Vec<char>)
    ensures
        r@ == located_frame(file@, num@, func@),
{
    let mut r: Vec<char> = Vec::new();
    push_str(&mut r, "  → ");
    push_chars(&mut r, file);
    push_str(&mut r, ":");
    push_chars(&mut r, num);
    push_str(&mut r, "         ");
    push_chars(&mut r, func);
    push_str(&mut r, "()");
    r
}

/// The index of the first `t` in `s`, if it occurs.
fn first_index_of(s: &[char], t: &[char]) -> (r: Option<usize>)
    ensures
        match r {
            Some(p) => p as int == first_index(s@, t@, 0) && occurs_at(s@, t@, p as int),
            None => first_index(s@, t@, 0) == -1,
        },
{
    let mut i: usize = 0;
    while i < s.len()
        invariant
            0 <= i <= s.len(),
            first_index(s@, t@, 0) == first_index(s@, t@, i as int),
        decreases s.len() - i,
    {
        if occurs_at_index(s, t, i) {
            return Some(i);
        }
        i += 1;
    }
    None
}

/// The project's directory, as the frames of its `node_modules` show it.
fn node_root_of(ms: &Vec<TraceLineMatches>) -> (r: Vec<char>)
    ensures
        r@ == node_root(trace_views(ms@), 0),
{
    let ghost mv = trace_views(ms@);
    let marker = chars_of("/node_modules/");
    let mut i: usize = 0;
    while i < ms.len()
        invariant
            0 <= i <= ms.len(),
            mv == trace_views(ms@),
            marker@ == "/node_modules/"@,
            node_root(mv, 0) == node_root(mv, i as int),
        decreases ms.len() - i,
    {
        if ms[i].node_frame || ms[i].node_frame_bare {
            match &ms[i].node_extract {
                Some(g) => {
                    let file = crate::pattern::group_chars_or(g, 2, "?");
                    let tf = trim_chars(&file);
                    match first_index_of(&tf, &marker) {
                        Some(p) => {
                            proof {
                                reveal_strlit("/node_modules/");
                                assert(marker@.len() == 14);
                                assert(p + marker@.len() <= tf@.len());
                                assert(p + 1 <= tf.len());
                            }
                            return slice_chars(&tf, 0, p + 1);
                        },
                        None => {},
                    }
                },
                None => {},
            }
        }
        i += 1;
    }
    Vec::new()
}

/// The location of a Node.js frame as shown.
fn node_loc_of(g: &Vec<Option<String>>, root: &[char]) -> (r: Vec<char>)
    ensures
        r@ == node_loc(g.deep_view(), root@),
{
    let file = crate::pattern::group_chars_or(g, 2, "?");
    let tf = trim_chars(&file);
    let num = crate::pattern::group_chars_or(g, 3, "?");
    let mut r: Vec<char> = Vec::new();
    if root.len() > 0 && occurs_at_index(&tf, root, 0) {
        let rest = slice_chars(&tf, root.len(), tf.len());
        assert(rest@ =~= tf@.skip(root@.len() as int));
        push_chars(&mut r, &rest);
    } else {
        push_chars(&mut r, &tf);
    }
    push_str(&mut r, ":");
    push_chars(&mut r, &num);
    r
}

/// The widest location of the Node.js user frames.
fn node_width_of(ms: &Vec<TraceLineMatches>, root: &Vec<char>) -> (w: usize)
    ensures
        w as nat == node_width(trace_views(ms@), root@),
{
    let ghost mv = trace_views(ms@);
    let mut w: usize = 0;
    let mut i: usize = 0;
    while i < ms.len()
        invariant
            0 <= i <= ms.len(),
            mv == trace_views(ms@),
            w as nat == node_width(mv.take(i as int), root@),
        decreases ms.len() - i,
    {
        assert(mv.take(i + 1).drop_last() =~= mv.take(i as int));
        assert(mv.take(i + 1).last() == mv[i as int]);
        if (ms[i].node_frame || ms[i].node_frame_bare) && !ms[i].node_framework {
            match &ms[i].node_extract {
                Some(g) => {
                    let loc = node_loc_of(g, root);
                    if loc.len() > w {
                        w = loc.len();
                    }
                },
                None => {},
            }
        }
        i += 1;
    }
    assert(mv.take(ms.len() as int) =~= mv);
    w
}

/// A Node.js user frame as shown, its location padded to `width`.
fn node_frame_line_of(loc: &[char], func: &[char], width: usize) -> (r: Vec<char>)
    ensures
        r@ == node_frame_line(loc@, func@, width as nat),
{
    let mut r: Vec<char> = Vec::new();
    push_str(&mut r, "  → ");
    push_chars(&mut r, loc);
    let pad: usize = if width > loc.len() {
        width - loc.len()
    } else {
        0
    };
    push_spaces(&mut r, pad as u128);
    push_str(&mut r, "   ");
    push_chars(&mut r, func);
    push_str(&mut r, "()");
    r
}

/// The note that stands for `n` dropped frames.
fn hidden_note_of(n: usize) -> (r: Vec<char>)
    ensures
        r@ == hidden_note(n as nat),
{
    let mut r: Vec<char> = Vec::new();
    push_str(&mut r, "  (+ ");
    push_dec(&mut r, n);
    push_str(&mut r, " framework frames hidden)");
    r
}

/// What a line becomes in a trace of `lang` (not Python).
fn role_for(lang: Language, line: &Vec<char>, m: &TraceLineMatches, after_hidden: bool, root: &[char], width: usize) -> (r: Role)
    ensures
        r@ == role_of(lang, line@, m@, after_hidden, root@, width as nat),
{
    match lang {
        Language::NodeJs => {
            if m.node_frame || m.node_frame_bare {
                if m.node_framework {
                    Role::Hidden
                } else {
                    match &m.node_extract {
                        Some(g) => {
                            let loc = node_loc_of(g, root);
                            let func = crate::pattern::group_chars_or(g, 1, "<anonymous>");
                            let tu = trim_chars(&func);
                            Role::Frame(node_frame_line_of(&loc, &tu, width))
                        },
                        None => {
                            let t = trim_chars(line);
                            Role::Frame(arrow_of(&t))
                        },
                    }
                }
            } else {
                Role::Plain
            }
        },
        Language::Rust => {
            if m.rust_frame {
                if m.rust_framework {
                    Role::Hidden
                } else {
                    let t = trim_chars(line);
                    Role::Frame(arrow_of(&t))
                }
            } else {
                Role::Plain
            }
        },
        Language::Go => {
            if m.go_frame || m.go_func {
                if m.go_framework {
                    Role::Hidden
                } else if after_hidden && m.go_frame {
                    Role::Dropped
                } else {
                    let t = trim_chars(line);
                    Role::Frame(arrow_of(&t))
                }
            } else {
                Role::Plain
            }
        },
        _ => {
            match &m.java_extract {
                Some(g) => {
                    if m.java_framework {
                        Role::Hidden
                    } else {
                        let method = crate::pattern::group_chars_or(g, 1, "?");
                        let file = crate::pattern::group_chars_or(g, 2, "?");
                        let num = crate::pattern::group_chars_or(g, 3, "?");
                        Role::Frame(located_frame_of(&file, &num, &method))
                    }
                },
                None => Role::Plain,
            }
        },
    }
}

/// What each line becomes in a trace of `lang` (not Python).
fn roles_for(lang: Language, lines: &Vec<Vec<char>>, ms: &Vec<TraceLineMatches>) -> (r: Vec<Role>)
    requires
        ms.len() == lines.len(),
    ensures
        r.len() == lines.len(),
        role_views(r@) == roles(lang, lines.deep_view(), trace_views(ms@)),
{
    let root = node_root_of(ms);
    let width = node_width_of(ms, &root);
    let mut r: Vec<Role> = Vec::new();
    let mut i: usize = 0;
    while i < lines.len()
        invariant
            0 <= i <= lines.len(),
            ms.len() == lines.len(),
            r.len() == i,
            root@ == node_root(trace_views(ms@), 0),
            width as nat == node_width(trace_views(ms@), root@),
            role_views(r@) == roles(lang, lines.deep_view(), trace_views(ms@)).take(i as int),
        decreases lines.len() - i,
    {
        let after_hidden = i > 0 && ms[i - 1].go_func && ms[i - 1].go_framework;
        let x = role_for(lang, &lines[i], &ms[i], after_hidden, &root, width);
        assert(lines@[i as int].deep_view() =~= lines@[i as int]@);
        r.push(x);
        i += 1;
        assert(role_views(r@) =~= roles(lang, lines.deep_view(), trace_views(ms@)).take(i as int));
    }
    assert(roles(lang, lines.deep_view(), trace_views(ms@)).take(i as int) =~= roles(
        lang,
        lines.deep_view(),
        trace_views(ms@),
    ));
    r
}

/// Appends the note for `hidden` dropped frames, if there are any.
fn push_flush(out: &mut Vec<Vec<char>>, hidden: usize)
    ensures
        final(out).deep_view() == old(out).deep_view() + flush(hidden as nat),
{
    let ghost before = out.deep_view();
    if hidden > 0 {
        let note = hidden_note_of(hidden);
        assert(note.deep_view() =~= note@);
        out.push(note);
        assert(out.deep_view() =~= before + flush(hidden as nat));
    } else {
        assert(out.deep_view() =~= before + flush(hidden as nat));
    }
}

/// Appends one line.
fn push_line(out: &mut Vec<Vec<char>>, line: Vec<char>)
    ensures
        final(out).deep_view() == old(out).deep_view() + seq![line@],
{
    let ghost before = out.deep_view();
    assert(line.deep_view() =~= line@);
    out.push(line);
    assert(out.deep_view() =~= before + seq![line@]);
}

/// The output lines: framework frames dropped and counted, user frames
/// rewritten, other lines kept.
fn fold_lines(rs: &Vec<Role>, lines: &Vec<Vec<char>>) -> (out: Vec<Vec<char>>)
    requires
        rs.len() == lines.len(),
    ensures
        out.deep_view() == fold_roles(role_views(rs@), lines.deep_view(), 0, 0),
{
    let ghost rv = role_views(rs@);
    let ghost lv = lines.deep_view();
    let ghost total = fold_roles(rv, lv, 0, 0);
    let mut out: Vec<Vec<char>> = Vec::new();
    let mut hidden: usize = 0;
    let mut i: usize = 0;
    assert(out.deep_view() + total =~= total);
    while i < rs.len()
        invariant
            0 <= i <= rs.len(),
            rs.len() == lines.len(),
            hidden <= i,
            rv == role_views(rs@),
            lv == lines.deep_view(),
            total == fold_roles(rv, lv, 0, 0),
            out.deep_view() + fold_roles(rv, lv, i as int, hidden as nat) == total,
        decreases rs.len() - i,
    {
        let ghost before = out.deep_view();
        match &rs[i] {
            Role::Hidden => {
                hidden += 1;
            },
            Role::Dropped => {},
            Role::Frame(t) => {
                let t2 = crate::text::copy_line(t);
                push_line(&mut out, t2);
                assert(before + fold_roles(rv, lv, i as int, hidden as nat) =~= out.deep_view()
                    + fold_roles(rv, lv, i + 1, hidden as nat));
            },
            Role::Plain => {
                let ghost h0 = hidden as nat;
                push_flush(&mut out, hidden);
                let l = crate::text::copy_line(&lines[i]);
                assert(lines@[i as int].deep_view() =~= lines@[i as int]@);
                push_line(&mut out, l);
                hidden = 0;
                assert(out.deep_view() =~= before + flush(h0) + seq![lv[i as int]]);
                assert(before + fold_roles(rv, lv, i as int, h0) =~= out.deep_view() + fold_roles(
                    rv,
                    lv,
                    i + 1,
                    0,
                ));
            },
        }
        i += 1;
    }
    push_flush(&mut out, hidden);
    out
}

/// Line `i` is the code line of the Python frame before it.
fn is_python_code_line(ms: &Vec<TraceLineMatches>, lines: &Vec<Vec<char>>, i: usize) -> (r: bool)
    requires
        ms.len() == lines.len(),
    ensures
        r == python_code_line(trace_views(ms@), lines.deep_view(), i as int),
{
    if i >= ms.len() {
        return false;
    }
    assert(lines@[i as int].deep_view() =~= lines@[i as int]@);
    if ms[i].python_file.is_some() || lines[i].len() == 0 {
        return false;
    }
    is_space_char(lines[i][0]) && trim_chars(&lines[i]).len() > 0
}

/// A Python frame as shown.
fn python_frame_of(file: &[char], num: &[char], code: &[char]) -> (r: Vec<char>)
    ensures
        r@ == python_frame(file@, num@, code@),
{
    let mut r: Vec<char> = Vec::new();
    push_str(&mut r, "  → ");
    push_chars(&mut r, file);
    push_str(&mut r, ":");
    push_chars(&mut r, num);
    if code.len() > 0 {
        push_str(&mut r, "         ");
        push_chars(&mut r, code);
    }
    r
}

/// A Python trace: frames of libraries and of the interpreter dropped and
/// counted, with their indented code lines; user frames shown with their
/// code line. An unindented line after a frame (the error) is kept.
fn compress_python(lines: &Vec<Vec<char>>, ms: &Vec<TraceLineMatches>) -> (r: Vec<char>)
    requires
        ms.len() == lines.len(),
    ensures
        r@ == compress_lines(Language::Python, lines.deep_view(), trace_views(ms@)),
{
    let ghost mv = trace_views(ms@);
    let ghost lv = lines.deep_view();
    let ghost total = python_fold(mv, lv, 0, 0);
    let mut out: Vec<Vec<char>> = Vec::new();
    let mut hidden: usize = 0;
    let mut i: usize = 0;
    assert(out.deep_view() + total =~= total);
    while i < lines.len()
        invariant
            0 <= i <= lines.len(),
            ms.len() == lines.len(),
            hidden <= i,
            mv == trace_views(ms@),
            lv == lines.deep_view(),
            total == python_fold(mv, lv, 0, 0),
            out.deep_view() + python_fold(mv, lv, i as int, hidden as nat) == total,
        decreases lines.len() - i,
    {
        let ghost before = out.deep_view();
        let ghost h0 = hidden as nat;
        match &ms[i].python_file {
            Some(g) => {
                let file = crate::pattern::group_chars_or(g, 1, "?");
                let num = crate::pattern::group_chars_or(g, 2, "?");
                let next_is_code = is_python_code_line(ms, lines, i + 1);
                if ms[i].python_framework {
                    hidden += 1;
                    if next_is_code {
                        i += 2;
                    } else {
                        i += 1;
                    }
                } else if next_is_code {
                    let code = trim_chars(&lines[i + 1]);
                    assert(lines@[i + 1].deep_view() =~= lines@[i + 1]@);
                    let frame = python_frame_of(&file, &num, &code);
                    push_line(&mut out, frame);
                    assert(before + python_fold(mv, lv, i as int, h0) =~= out.deep_view() + python_fold(
                        mv,
                        lv,
                        i + 2,
                        h0,
                    ));
                    i += 2;
                } else {
                    let empty: Vec<char> = Vec::new();
                    let frame = python_frame_of(&file, &num, &empty);
                    push_line(&mut out, frame);
                    assert(before + python_fold(mv, lv, i as int, h0) =~= out.deep_view() + python_fold(
                        mv,
                        lv,
                        i + 1,
                        h0,
                    ));
                    i += 1;
                }
            },
            None => {
                push_flush(&mut out, hidden);
                let l = crate::text::copy_line(&lines[i]);
                assert(lines@[i as int].deep_view() =~= lines@[i as int]@);
                push_line(&mut out, l);
                hidden = 0;
                assert(out.deep_view() =~= before + flush(h0) + seq![lv[i as int]]);
                assert(before + python_fold(mv, lv, i as int, h0) =~= out.deep_view() + python_fold(
                    mv,
                    lv,
                    i + 1,
                    0,
                ));
                i += 1;
            },
        }
    }
    push_flush(&mut out, hidden);
    let nl = chars_of("\n");
    join_with(&out, &nl)
}

/// A trace of `lang` (not Python) compressed.
fn compress_by_roles(lang: Language, lines: &Vec<Vec<char>>, ms: &Vec<TraceLineMatches>) -> (r: Vec<char>)
    requires
        ms.len() == lines.len(),
        lang != Language::Python,
    ensures
        r@ == compress_lines(lang, lines.deep_view(), trace_views(ms@)),
{
    let rs = roles_for(lang, lines, ms);
    let out = fold_lines(&rs, lines);
    let nl = chars_of("\n");
    join_with(&out, &nl)
}

/// A Node.js trace: frames under `node_modules/` or `node:internal/`
/// dropped and counted, user frames as `file:line  function()` with files
/// relative to the project's directory and functions in one column.
fn compress_nodejs(lines: &Vec<Vec<char>>, ms: &Vec<TraceLineMatches>) -> (r: Vec<char>)
    requires
        ms.len() == lines.len(),
    ensures
        r@ == compress_lines(Language::NodeJs, lines.deep_view(), trace_views(ms@)),
{
    compress_by_roles(Language::NodeJs, lines, ms)
}

/// A Rust backtrace: frames of the runtime dropped and counted.
fn compress_rust(lines: &Vec<Vec<char>>, ms: &Vec<TraceLineMatches>) -> (r: Vec<char>)
    requires
        ms.len() == lines.len(),
    ensures
        r@ == compress_lines(Language::Rust, lines.deep_view(), trace_views(ms@)),
{
    compress_by_roles(Language::Rust, lines, ms)
}

/// A Go trace: frames of the runtime and of net/http dropped and counted,
/// each with its file line.
fn compress_go(lines: &Vec<Vec<char>>, ms: &Vec<TraceLineMatches>) -> (r: Vec<char>)
    requires
        ms.len() == lines.len(),
    ensures
        r@ == compress_lines(Language::Go, lines.deep_view(), trace_views(ms@)),
{
    compress_by_roles(Language::Go, lines, ms)
}

/// A Java trace: reflection and Spring frames dropped and counted, user
/// frames as `File.java:line  method()`.
fn compress_java(lines: &Vec<Vec<char>>, ms: &Vec<TraceLineMatches>) -> (r: Vec<char>)
    requires
        ms.len() == lines.len(),
    ensures
        r@ == compress_lines(Language::Java, lines.deep_view(), trace_views(ms@)),
{
    compress_by_roles(Language::Java, lines, ms)
}

/// Compresses `text` (repeats already collapsed), given what the stacktrace
/// patterns found on each of its lines (`matches[i]` for line `i`).
pub fn compress_matched(text: &str, matches: &Vec<TraceLineMatches>) -> (out: String)
    requires
        matches.len() == split_lines(text@).len(),
    ensures
        out@ == compress_text(text@, trace_views(matches@)),
{
    let chars = chars_of(text);
    let lines = split_lines_of(&chars);
    let r = match detect_language_matched(matches) {
        Some(Language::NodeJs) => compress_nodejs(&lines, matches),
        Some(Language::Python) => compress_python(&lines, matches),
        Some(Language::Rust) => compress_rust(&lines, matches),
        Some(Language::Go) => compress_go(&lines, matches),
        Some(Language::Java) => compress_java(&lines, matches),
        None => {
            return text.to_owned();
        },
    };
    string_of(&r)
}

/// Compresses error stacktraces: repeated lines collapsed, then framework
/// frames removed and user frames kept. Text in which no stacktrace is
/// recognised comes back with only its repeats collapsed: unchanged when no
/// line equals the one before it.
pub fn compress_errors(input: &str) -> (out: String)
    ensures
        out@ == if trace_patterns_accepted() {
            compress_output(input@, lines_traced(split_lines(dedup_repeated(input@))))
        } else {
            dedup_repeated(input@)
        },
{
    let deduped = deduplicate_repeated_errors(input);
    match TracePatterns::build() {
        None => deduped,
        Some(p) => {
            let chars = chars_of(deduped.as_str());
            let lines = split_lines_of(&chars);
            let ms = p.match_lines(&lines);
            compress_matched(deduped.as_str(), &ms)
        },
    }
}

// ---------------------------------------------------------------------------
// Laws
// ---------------------------------------------------------------------------

/// Law: text in which no stacktrace is recognised is not compressed.
pub proof fn law_no_trace_unchanged(text: Seq<char>, ms: Seq<TraceLineView>)
    requires
        detect(ms) is None,
    ensures
        compress_text(text, ms) == text,
{
}

/// Law: text without stacktrace in which no line equals the one before it
/// comes back unchanged, line endings included.
pub proof fn law_plain_text_unchanged(input: Seq<char>, ms: Seq<TraceLineView>)
    requires
        detect(ms) is None,
        forall|k: int|
            0 <= k < split_lines(input).len() - 1 ==> split_lines(input)[k] != #[trigger] split_lines(
                input,
            )[k + 1],
    ensures
        compress_output(input, ms) == input,
{
}

/// Collapsing repeats never adds lines and keeps every line.
proof fn lemma_collapse_keeps(ls: Seq<Seq<char>>, i: int)
    requires
        0 <= i <= ls.len(),
    ensures
        collapse_runs(ls, i).len() <= ls.len() - i,
        forall|k: int| i <= k < ls.len() ==> collapse_runs(ls, i).contains(#[trigger] ls[k]),
    decreases ls.len() - i,
{
    if i < ls.len() {
        let n = run_len(ls, i);
        lemma_run_len_bounds(ls, i);
        lemma_collapse_keeps(ls, i + n);
        let head = seq![ls[i]] + (if n > 1 {
            seq![repeat_note(n)]
        } else {
            seq![]
        });
        let rest = collapse_runs(ls, i + n);
        assert(collapse_runs(ls, i) == head + rest);
        assert forall|k: int| i <= k < ls.len() implies collapse_runs(ls, i).contains(#[trigger] ls[k]) by {
            if k < i + n {
                assert(ls[k] == ls[i]);
                assert((head + rest)[0] == ls[i]);
            } else {
                let m = choose|m: int| 0 <= m < rest.len() && rest[m] == ls[k];
                assert((head + rest)[head.len() + m] == ls[k]);
            }
        }
    }
}

/// Law: collapsing repeated lines never adds lines, and every line of the
/// text is still there.
pub proof fn law_collapse_keeps_every_line(s: Seq<char>, k: int)
    requires
        split_lines(s).len() >= 2,
        0 <= k < split_lines(s).len(),
    ensures
        collapse_runs(split_lines(s), 0).len() <= split_lines(s).len(),
        collapse_runs(split_lines(s), 0).contains(split_lines(s)[k]),
        has_repeat(split_lines(s)) ==> dedup_repeated(s) == join(collapse_runs(split_lines(s), 0), "\n"@),
        !has_repeat(split_lines(s)) ==> dedup_repeated(s) == s,
{
    lemma_collapse_keeps(split_lines(s), 0);
}

/// Compression never adds lines; every user frame and every other line is
/// there.
proof fn lemma_fold_keeps(roles: Seq<LineRole>, lines: Seq<Seq<char>>, i: int, hidden: nat)
    requires
        0 <= i <= roles.len(),
        roles.len() == lines.len(),
    ensures
        fold_roles(roles, lines, i, hidden).len() <= roles.len() - i + (if hidden > 0 {
            1int
        } else {
            0
        }),
        forall|k: int|
            i <= k < roles.len() && roles[k] is Plain ==> fold_roles(roles, lines, i, hidden).contains(
                #[trigger] lines[k],
            ),
        forall|k: int|
            i <= k < roles.len() && #[trigger] roles[k] is Frame ==> fold_roles(
                roles,
                lines,
                i,
                hidden,
            ).contains(roles[k]->0),
    decreases roles.len() - i,
{
    if i < roles.len() {
        match roles[i] {
            LineRole::Hidden => {
                lemma_fold_keeps(roles, lines, i + 1, hidden + 1);
            },
            LineRole::Dropped => {
                lemma_fold_keeps(roles, lines, i + 1, hidden);
            },
            LineRole::Frame(t) => {
                lemma_fold_keeps(roles, lines, i + 1, hidden);
                let rest = fold_roles(roles, lines, i + 1, hidden);
                let all = seq![t] + rest;
                assert forall|k: int| i <= k < roles.len() && roles[k] is Plain implies all.contains(
                    #[trigger] lines[k],
                ) by {
                    let m = choose|m: int| 0 <= m < rest.len() && rest[m] == lines[k];
                    assert(all[1 + m] == lines[k]);
                }
                assert forall|k: int| i <= k < roles.len() && #[trigger] roles[k] is Frame implies all.contains(
                    roles[k]->0,
                ) by {
                    if k == i {
                        assert(all[0] == t);
                    } else {
                        let m = choose|m: int| 0 <= m < rest.len() && rest[m] == roles[k]->0;
                        assert(all[1 + m] == roles[k]->0);
                    }
                }
            },
            LineRole::Plain => {
                lemma_fold_keeps(roles, lines, i + 1, 0);
                let rest = fold_roles(roles, lines, i + 1, 0);
                let head = flush(hidden) + seq![lines[i]];
                let all = head + rest;
                assert(fold_roles(roles, lines, i, hidden) == all);
                assert forall|k: int| i <= k < roles.len() && roles[k] is Plain implies all.contains(
                    #[trigger] lines[k],
                ) by {
                    if k == i {
                        assert(all[head.len() - 1] == lines[i]);
                    } else {
                        let m = choose|m: int| 0 <= m < rest.len() && rest[m] == lines[k];
                        assert(all[head.len() + m] == lines[k]);
                    }
                }
                assert forall|k: int| i <= k < roles.len() && #[trigger] roles[k] is Frame implies all.contains(
                    roles[k]->0,
                ) by {
                    let m = choose|m: int| 0 <= m < rest.len() && rest[m] == roles[k]->0;
                    assert(all[head.len() + m] == roles[k]->0);
                }
            },
        }
    }
}

/// Law: compressing a Node.js, Rust, Go or Java trace never adds lines, keeps
/// every line that is no frame, and shows every user frame.
pub proof fn law_compression_keeps_user_lines(roles: Seq<LineRole>, lines: Seq<Seq<char>>, k: int)
    requires
        roles.len() == lines.len(),
        0 <= k < roles.len(),
    ensures
        fold_roles(roles, lines, 0, 0).len() <= lines.len(),
        roles[k] is Plain ==> fold_roles(roles, lines, 0, 0).contains(lines[k]),
        roles[k] is Frame ==> fold_roles(roles, lines, 0, 0).contains(roles[k]->0),
{
    lemma_fold_keeps(roles, lines, 0, 0);
}

/// A Python trace never gains lines when compressed.
proof fn lemma_python_fold_len(ms: Seq<TraceLineView>, lines: Seq<Seq<char>>, i: int, hidden: nat)
    requires
        0 <= i <= ms.len(),
    ensures
        python_fold(ms, lines, i, hidden).len() <= ms.len() - i + (if hidden > 0 {
            1int
        } else {
            0
        }),
    decreases ms.len() - i,
{
    if i < ms.len() {
        if ms[i].python_file is Some {
            if python_code_line(ms, lines, i + 1) {
                lemma_python_fold_len(ms, lines, i + 2, if ms[i].python_framework {
                    hidden + 1
                } else {
                    hidden
                });
            } else {
                lemma_python_fold_len(ms, lines, i + 1, if ms[i].python_framework {
                    hidden + 1
                } else {
                    hidden
                });
            }
        } else {
            lemma_python_fold_len(ms, lines, i + 1, 0);
        }
    }
}

/// The number of frames that a note line stands for: `n` for
/// `  (+ n framework frames hidden)`, nothing for any other line.
pub open spec fn note_value(l: Seq<char>) -> nat {
    let pre = "  (+ "@;
    let post = " framework frames hidden)"@;
    let mid = l.subrange(pre.len() as int, l.len() - post.len());
    if l.len() > pre.len() + post.len() && starts_with(l, pre) && l.skip(l.len() - post.len()) == post
        && all_digits(mid) {
        digits_value(mid)
    } else {
        0
    }
}

/// The frames that the note lines among `ls` stand for, all together.
pub open spec fn notes_total(ls: Seq<Seq<char>>) -> nat
    decreases ls.len(),
{
    if ls.len() == 0 {
        0
    } else {
        notes_total(ls.drop_last()) + note_value(ls.last())
    }
}

/// How many of the roles from `i` on are hidden frames.
pub open spec fn hidden_count(roles: Seq<LineRole>, i: int) -> nat
    decreases roles.len() - i,
{
    if i < 0 || i >= roles.len() {
        0
    } else {
        (if roles[i] is Hidden {
            1nat
        } else {
            0nat
        }) + hidden_count(roles, i + 1)
    }
}

/// How many of lines `i..` are Python frames of libraries or of the
/// interpreter.
pub open spec fn python_hidden_count(ms: Seq<TraceLineView>, i: int) -> nat
    decreases ms.len() - i,
{
    if i < 0 || i >= ms.len() {
        0
    } else {
        (if ms[i].python_file is Some && ms[i].python_framework {
            1nat
        } else {
            0nat
        }) + python_hidden_count(ms, i + 1)
    }
}

/// A note stands for the number it was written with.
proof fn lemma_note_value(n: nat)
    ensures
        note_value(hidden_note(n)) == n,
{
    reveal_strlit("  (+ ");
    reveal_strlit(" framework frames hidden)");
    let pre = "  (+ "@;
    let post = " framework frames hidden)"@;
    let l = hidden_note(n);
    crate::text::lemma_dec_digits(n);
    crate::text::lemma_dec_value(n);
    assert(l.subrange(pre.len() as int, l.len() - post.len()) =~= dec(n));
    assert(l.skip(l.len() - post.len()) =~= post);
    assert(l.subrange(0, pre.len() as int) =~= pre);
}

/// A line that begins with an arrow is no note.
proof fn lemma_arrow_no_note(t: Seq<char>)
    ensures
        note_value("  → "@ + t) == 0,
{
    reveal_strlit("  (+ ");
    reveal_strlit("  → ");
    let l = "  → "@ + t;
    assert(l[2] == '→');
    if l.len() >= 5 {
        assert(l.subrange(0, 5)[2] == '→');
    }
}

/// Notes of two parts add up.
proof fn lemma_notes_total_add(a: Seq<Seq<char>>, b: Seq<Seq<char>>)
    ensures
        notes_total(a + b) == notes_total(a) + notes_total(b),
    decreases b.len(),
{
    if b.len() == 0 {
        assert(a + b =~= a);
    } else {
        lemma_notes_total_add(a, b.drop_last());
        assert((a + b).drop_last() =~= a + b.drop_last());
    }
}

/// One line stands for what it stands for.
proof fn lemma_notes_single(l: Seq<char>)
    ensures
        notes_total(seq![l]) == note_value(l),
{
    assert(seq![l].drop_last() =~= Seq::<Seq<char>>::empty());
    assert(notes_total(Seq::<Seq<char>>::empty()) == 0);
}

/// The note for `n` dropped frames stands for `n` frames.
proof fn lemma_flush_total(n: nat)
    ensures
        notes_total(flush(n)) == n,
{
    if n > 0 {
        lemma_note_value(n);
        lemma_notes_single(hidden_note(n));
    } else {
        assert(notes_total(flush(n)) == 0);
    }
}

/// The notes of a fold stand for the frames hidden before it and in it.
proof fn lemma_fold_notes(roles: Seq<LineRole>, lines: Seq<Seq<char>>, i: int, hidden: nat)
    requires
        0 <= i <= roles.len(),
        roles.len() == lines.len(),
        forall|k: int| 0 <= k < roles.len() && #[trigger] roles[k] is Plain ==> note_value(lines[k]) == 0,
        forall|k: int| 0 <= k < roles.len() && #[trigger] roles[k] is Frame ==> note_value(roles[k]->0) == 0,
    ensures
        notes_total(fold_roles(roles, lines, i, hidden)) == hidden + hidden_count(roles, i),
    decreases roles.len() - i,
{
    if i == roles.len() {
        lemma_flush_total(hidden);
    } else {
        match roles[i] {
            LineRole::Hidden => {
                lemma_fold_notes(roles, lines, i + 1, hidden + 1);
            },
            LineRole::Dropped => {
                lemma_fold_notes(roles, lines, i + 1, hidden);
            },
            LineRole::Frame(t) => {
                lemma_fold_notes(roles, lines, i + 1, hidden);
                let rest = fold_roles(roles, lines, i + 1, hidden);
                lemma_notes_total_add(seq![t], rest);
                lemma_notes_single(t);
            },
            LineRole::Plain => {
                lemma_fold_notes(roles, lines, i + 1, 0);
                let rest = fold_roles(roles, lines, i + 1, 0);
                lemma_flush_total(hidden);
                lemma_notes_total_add(flush(hidden), seq![lines[i]]);
                lemma_notes_total_add(flush(hidden) + seq![lines[i]], rest);
                lemma_notes_single(lines[i]);
            },
        }
    }
}

/// Every user frame of a trace that is not Python's begins with an arrow.
proof fn lemma_frames_no_note(lang: Language, lines: Seq<Seq<char>>, ms: Seq<TraceLineView>, k: int)
    requires
        0 <= k < ms.len(),
        roles(lang, lines, ms)[k] is Frame,
    ensures
        note_value(roles(lang, lines, ms)[k]->0) == 0,
{
    let r = roles(lang, lines, ms)[k];
    let t = r->0;
    let root = node_root(ms, 0);
    let width = node_width(ms, root);
    let m = ms[k];
    match lang {
        Language::NodeJs => {
            if m.node_extract is Some {
                let g = m.node_extract->0;
                let loc = node_loc(g, root);
                let func = trim(group_or(g, 1, "<anonymous>"@));
                let pad = spaces(
                    if width > loc.len() {
                        (width - loc.len()) as nat
                    } else {
                        0
                    },
                );
                assert(node_frame_line(loc, func, width) =~= "  → "@ + (loc + pad + "   "@ + func + "()"@));
                lemma_arrow_no_note(loc + pad + "   "@ + func + "()"@);
            } else {
                lemma_arrow_no_note(trim(lines[k]));
            }
        },
        Language::Java | Language::Python => {
            let g = m.java_extract->0;
            let (file, num, meth) = (group_or(g, 2, "?"@), group_or(g, 3, "?"@), group_or(g, 1, "?"@));
            assert(located_frame(file, num, meth) =~= "  → "@ + (file + ":"@ + num + "         "@ + meth + "()"@));
            lemma_arrow_no_note(file + ":"@ + num + "         "@ + meth + "()"@);
        },
        _ => {
            lemma_arrow_no_note(trim(lines[k]));
        },
    }
}

/// Law: in a compressed Node.js, Rust, Go or Java trace, the notes of hidden
/// frames add up to the number of frames dropped, provided no kept line of
/// the input reads as such a note itself.
pub proof fn law_hidden_notes_add_up(lang: Language, lines: Seq<Seq<char>>, ms: Seq<TraceLineView>)
    requires
        lines.len() == ms.len(),
        forall|k: int|
            0 <= k < ms.len() && #[trigger] roles(lang, lines, ms)[k] is Plain ==> note_value(lines[k]) == 0,
    ensures
        notes_total(fold_roles(roles(lang, lines, ms), lines, 0, 0)) == hidden_count(roles(lang, lines, ms), 0),
{
    let rs = roles(lang, lines, ms);
    assert forall|k: int| 0 <= k < rs.len() && #[trigger] rs[k] is Frame implies note_value(rs[k]->0) == 0 by {
        lemma_frames_no_note(lang, lines, ms, k);
    }
    lemma_fold_notes(rs, lines, 0, 0);
}

/// The notes of a Python fold stand for the frames hidden before it and in
/// it.
proof fn lemma_python_notes(ms: Seq<TraceLineView>, lines: Seq<Seq<char>>, i: int, hidden: nat)
    requires
        0 <= i <= ms.len(),
        lines.len() == ms.len(),
        forall|k: int| 0 <= k < ms.len() && #[trigger] ms[k].python_file is None ==> note_value(lines[k]) == 0,
    ensures
        notes_total(python_fold(ms, lines, i, hidden)) == hidden + python_hidden_count(ms, i),
    decreases ms.len() - i,
{
    if i == ms.len() {
        lemma_flush_total(hidden);
    } else if ms[i].python_file is Some {
        let g = ms[i].python_file->0;
        let file = python_file_of(g);
        let num = group_or(g, 2, "?"@);
        let h2 = if ms[i].python_framework {
            hidden + 1
        } else {
            hidden
        };
        if python_code_line(ms, lines, i + 1) {
            lemma_python_notes(ms, lines, i + 2, h2);
            assert(python_hidden_count(ms, i + 1) == python_hidden_count(ms, i + 2));
        } else {
            lemma_python_notes(ms, lines, i + 1, h2);
        }
        if !ms[i].python_framework {
            let code = if python_code_line(ms, lines, i + 1) {
                trim(lines[i + 1])
            } else {
                seq![]
            };
            let rest = if python_code_line(ms, lines, i + 1) {
                python_fold(ms, lines, i + 2, hidden)
            } else {
                python_fold(ms, lines, i + 1, hidden)
            };
            let f = python_frame(file, num, code);
            if code.len() == 0 {
                assert(f =~= "  → "@ + (file + ":"@ + num));
                lemma_arrow_no_note(file + ":"@ + num);
            } else {
                assert(f =~= "  → "@ + (file + ":"@ + num + "         "@ + code));
                lemma_arrow_no_note(file + ":"@ + num + "         "@ + code);
            }
            lemma_notes_total_add(seq![f], rest);
            lemma_notes_single(f);
        }
    } else {
        lemma_python_notes(ms, lines, i + 1, 0);
        let rest = python_fold(ms, lines, i + 1, 0);
        lemma_flush_total(hidden);
        lemma_notes_total_add(flush(hidden), seq![lines[i]]);
        lemma_notes_total_add(flush(hidden) + seq![lines[i]], rest);
        lemma_notes_single(lines[i]);
    }
}

/// Law: in a compressed Python trace, the notes of hidden frames add up to
/// the number of frames of libraries and of the interpreter, provided no
/// kept line of the input reads as such a note itself.
pub proof fn law_python_hidden_notes_add_up(ms: Seq<TraceLineView>, lines: Seq<Seq<char>>)
    requires
        lines.len() == ms.len(),
        forall|k: int| 0 <= k < ms.len() && #[trigger] ms[k].python_file is None ==> note_value(lines[k]) == 0,
    ensures
        notes_total(python_fold(ms, lines, 0, 0)) == python_hidden_count(ms, 0),
{
    lemma_python_notes(ms, lines, 0, 0);
}

/// Law: in a Node.js trace, a line is dropped as a framework frame exactly
/// when it is a frame (with its location in parentheses or bare) under
/// `node_modules/` or `node:internal/`; no line kept as it is is a frame,
/// and every other frame is shown as a user frame.
pub proof fn law_node_frames_sorted_out(lines: Seq<Seq<char>>, ms: Seq<TraceLineView>)
    requires
        lines.len() == ms.len(),
    ensures
        forall|k: int|
            0 <= k < ms.len() ==> ((#[trigger] roles(Language::NodeJs, lines, ms)[k] is Hidden) <==> ((
            ms[k].node_frame || ms[k].node_frame_bare) && ms[k].node_framework)),
        forall|k: int|
            0 <= k < ms.len() ==> ((#[trigger] roles(Language::NodeJs, lines, ms)[k] is Plain) <==> (
            !ms[k].node_frame && !ms[k].node_frame_bare)),
        forall|k: int|
            0 <= k < ms.len() ==> ((#[trigger] roles(Language::NodeJs, lines, ms)[k] is Frame) <==> ((
            ms[k].node_frame || ms[k].node_frame_bare) && !ms[k].node_framework)),
{
}

/// Some line of `out` begins with the arrow, `file`, `:` and `num`.
pub open spec fn shows_location(out: Seq<Seq<char>>, file: Seq<char>, num: Seq<char>) -> bool {
    exists|m: int| 0 <= m < out.len() && starts_with(#[trigger] out[m], "  → "@ + file + ":"@ + num)
}

/// Line `k` is a Python frame of user code.
pub open spec fn python_user_frame(ms: Seq<TraceLineView>, k: int) -> bool {
    ms[k].python_file is Some && !ms[k].python_framework
}

/// What is shown stays shown when lines are put around it.
proof fn lemma_shows_extend(a: Seq<Seq<char>>, out: Seq<Seq<char>>, file: Seq<char>, num: Seq<char>)
    requires
        shows_location(out, file, num),
    ensures
        shows_location(a + out, file, num),
{
    let m = choose|m: int| 0 <= m < out.len() && starts_with(#[trigger] out[m], "  → "@ + file + ":"@ + num);
    assert((a + out)[a.len() + m] == out[m]);
}

/// Every user frame from line `i` on is shown in the fold from `i`.
proof fn lemma_python_shows_frames(ms: Seq<TraceLineView>, lines: Seq<Seq<char>>, i: int, hidden: nat, k: int)
    requires
        0 <= i <= k < ms.len(),
        lines.len() == ms.len(),
        python_user_frame(ms, k),
    ensures
        shows_location(
            python_fold(ms, lines, i, hidden),
            python_file_of(ms[k].python_file->0),
            group_or(ms[k].python_file->0, 2, "?"@),
        ),
    decreases ms.len() - i,
{
    let g = ms[k].python_file->0;
    let file = python_file_of(g);
    let num = group_or(g, 2, "?"@);
    let loc = "  → "@ + file + ":"@ + num;
    if ms[i].python_file is Some {
        let gi = ms[i].python_file->0;
        let h2 = if ms[i].python_framework {
            hidden + 1
        } else {
            hidden
        };
        let code_next = python_code_line(ms, lines, i + 1);
        let next = if code_next {
            i + 2
        } else {
            i + 1
        };
        if i == k {
            let code = if code_next {
                trim(lines[i + 1])
            } else {
                seq![]
            };
            let f = python_frame(file, num, code);
            let rest = python_fold(ms, lines, next, hidden);
            assert(python_fold(ms, lines, i, hidden) == seq![f] + rest);
            if code.len() == 0 {
                assert(f =~= loc);
            } else {
                assert(f =~= loc + ("         "@ + code));
            }
            assert(f.subrange(0, loc.len() as int) =~= loc);
            assert((seq![f] + rest)[0] == f);
        } else {
            if code_next {
                assert(k != i + 1);
            }
            lemma_python_shows_frames(ms, lines, next, h2, k);
            if !ms[i].python_framework {
                let code = if code_next {
                    trim(lines[i + 1])
                } else {
                    seq![]
                };
                lemma_shows_extend(seq![python_frame(python_file_of(gi), group_or(gi, 2, "?"@), code)], python_fold(ms, lines, next, h2), file, num);
            }
        }
    } else {
        lemma_python_shows_frames(ms, lines, i + 1, 0, k);
        lemma_shows_extend(flush(hidden) + seq![lines[i]], python_fold(ms, lines, i + 1, 0), file, num);
    }
}

/// Law: every Python frame of user code is shown, as an arrow line with its
/// file and line number, whether or not a code line follows it.
pub proof fn law_python_user_frames_shown(ms: Seq<TraceLineView>, lines: Seq<Seq<char>>, k: int)
    requires
        lines.len() == ms.len(),
        0 <= k < ms.len(),
        python_user_frame(ms, k),
    ensures
        shows_location(
            python_fold(ms, lines, 0, 0),
            python_file_of(ms[k].python_file->0),
            group_or(ms[k].python_file->0, 2, "?"@),
        ),
{
    lemma_python_shows_frames(ms, lines, 0, 0, k);
}

/// Law: compressing a Python trace never adds lines.
pub proof fn law_python_never_longer(ms: Seq<TraceLineView>, lines: Seq<Seq<char>>)
    ensures
        python_fold(ms, lines, 0, 0).len() <= ms.len(),
{
    lemma_python_fold_len(ms, lines, 0, 0);
}

} // verus!
