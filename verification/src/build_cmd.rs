//! Build errors grouped by error code, with every file and line kept.
//!
//! Understands the output of the TypeScript compiler, ESLint, cargo, mypy and
//! pylint. Output in which none of them is found is handed back unchanged.

use vstd::prelude::*;
use crate::order::{
    insert_index, insertion_sort, lemma_dedup_len,
    lemma_sort_len, lemma_sort_sum, lemma_sum_prefix, lemma_sum_update, lemma_sum_le,
    lemma_sort_elements, lemma_sort_keeps, lemma_sort_sorted, lemma_lex_lt_transitive,
    lemma_lex_lt_asymmetric, lemma_dedup_keeps, num_before, lex_less, lex_lt, sort_unique_numbers,
    sorted_unique, sum_of,
};
use crate::pattern::{group, group_chars_or, regex_accepts, regex_captures, Groups, Pattern};
use crate::text::{
    chars_of, concat, dec, starts_with, slice_chars, join, join_with, parse_usize, parse_usize_chars, push_chars, push_dec,
    push_spaces, push_str, spaces, split_lines, split_lines_of, string_of, trim, trim_chars,
    trim_end, trim_end_chars, utf8_len, utf8_len_of, contains, contains_inside, lemma_inside_of,
    lemma_inside_extend, lemma_inside_trans, lemma_concat_inside, lemma_trim_end_keeps,
    lemma_join_last, lemma_dec_last, lemma_join_contains, is_space,
};

verus! {

/// TypeScript: `src/file.ts(12,5): error TS2322: Message`.
pub const TSC_ERROR: &'static str = r"^(.+?)\((\d+),\d+\):\s+(?:error|warning)\s+(TS\d+):\s+(.+)$";

/// ESLint's default formatter: a line that names a file.
pub const ESLINT_FILE: &'static str = r"^(/[^\s].*|[A-Za-z]:\\[^\s].*)$";

/// ESLint's default formatter: an indented issue under a file.
pub const ESLINT_ISSUE: &'static str = r"^\s+(\d+):\d+\s+(?:error|warning)\s+(.+?)\s{2,}(\S+)\s*$";

/// cargo: `error[E0308]: mismatched types`.
pub const CARGO_ERROR_HEADER: &'static str = r"^error\[(E\d{4})\]:\s+(.+)$";

/// cargo: `  --> src/main.rs:12:5`.
pub const CARGO_LOCATION: &'static str = r"^\s+--> (.+?):(\d+):\d+$";

/// mypy: `src/file.py:12: error: Message [error-code]`.
pub const MYPY_ERROR: &'static str = r"^(.+?):(\d+)(?::\d+)?: (?:error|warning): (.+?)\s+\[(.+)\]$";

/// pylint: `src/file.py:12:0: W0612: Unused variable 'x' (unused-variable)`.
pub const PYLINT_ERROR: &'static str = r"^(.+?):(\d+):\d+: ([CWER]\d{4}): (.+?) \((.+)\)$";

/// How many files of a group are listed one per line.
pub const INLINE_LIMIT: usize = 8;

// ---------------------------------------------------------------------------
// Meaning
// ---------------------------------------------------------------------------

/// What each build-error pattern finds on one line.
pub struct BuildLineView {
    pub tsc: Option<Groups>,
    pub cargo_header: Option<Groups>,
    pub cargo_location: Option<Groups>,
    pub mypy: Option<Groups>,
    pub pylint: Option<Groups>,
    pub eslint_file: Option<Groups>,
    pub eslint_issue: Option<Groups>,
}

/// What the regexes find on `line`.
pub open spec fn build_line_view(line: Seq<char>) -> BuildLineView {
    BuildLineView {
        tsc: regex_captures(TSC_ERROR@, line),
        cargo_header: regex_captures(CARGO_ERROR_HEADER@, line),
        cargo_location: regex_captures(CARGO_LOCATION@, line),
        mypy: regex_captures(MYPY_ERROR@, line),
        pylint: regex_captures(PYLINT_ERROR@, line),
        eslint_file: regex_captures(ESLINT_FILE@, line),
        eslint_issue: regex_captures(ESLINT_ISSUE@, line),
    }
}

/// Every pattern is accepted by the regex engine.
pub open spec fn build_patterns_accepted() -> bool {
    &&& regex_accepts(TSC_ERROR@)
    &&& regex_accepts(CARGO_ERROR_HEADER@)
    &&& regex_accepts(CARGO_LOCATION@)
    &&& regex_accepts(MYPY_ERROR@)
    &&& regex_accepts(PYLINT_ERROR@)
    &&& regex_accepts(ESLINT_FILE@)
    &&& regex_accepts(ESLINT_ISSUE@)
}

/// One recognised error: its code, message, file and line number.
pub struct Located {
    pub code: Seq<char>,
    pub message: Seq<char>,
    pub file: Seq<char>,
    pub line: usize,
}

/// A line number as written, or 0 where it does not parse.
pub open spec fn line_number(t: Seq<char>) -> usize {
    match parse_usize(t) {
        Some(v) => v as usize,
        None => 0,
    }
}

/// The error at `file`, line `num` (as written).
pub open spec fn located(code: Seq<char>, message: Seq<char>, file: Seq<char>, num: Seq<char>) -> Located {
    Located { code, message, file, line: line_number(num) }
}

/// The first cargo location at lines `j..=i + 5`.
pub open spec fn cargo_location_near(ms: Seq<BuildLineView>, i: int, j: int) -> Option<Groups>
    decreases ms.len() - j,
{
    if j >= ms.len() || j > i + 5 {
        None
    } else if ms[j].cargo_location is Some {
        ms[j].cargo_location
    } else {
        cargo_location_near(ms, i, j + 1)
    }
}

/// The errors recognised from line `i` on; `eslint_file` is the ESLint file
/// whose issues are being read, if any.
pub open spec fn scan(
    ms: Seq<BuildLineView>,
    lines: Seq<Seq<char>>,
    i: int,
    eslint_file: Option<Seq<char>>,
) -> Seq<Located>
    decreases ms.len() - i, if eslint_file is Some {
        1int
    } else {
        0int
    },
{
    if i >= ms.len() {
        seq![]
    } else if eslint_file is Some {
        let file = eslint_file->0;
        if ms[i].eslint_issue is Some {
            let g = ms[i].eslint_issue->0;
            seq![located(group(g, 3), group(g, 2), file, group(g, 1))] + scan(
                ms,
                lines,
                i + 1,
                eslint_file,
            )
        } else if trim(lines[i]).len() == 0 {
            scan(ms, lines, i + 1, None)
        } else {
            scan(ms, lines, i, None)
        }
    } else if ms[i].tsc is Some {
        let g = ms[i].tsc->0;
        seq![located(group(g, 3), group(g, 4), group(g, 1), group(g, 2))] + scan(
            ms,
            lines,
            i + 1,
            None,
        )
    } else if ms[i].cargo_header is Some {
        let g = ms[i].cargo_header->0;
        match cargo_location_near(ms, i, i + 1) {
            Some(l) => seq![located(group(g, 1), group(g, 2), group(l, 1), group(l, 2))] + scan(
                ms,
                lines,
                i + 1,
                None,
            ),
            None => scan(ms, lines, i + 1, None),
        }
    } else if ms[i].mypy is Some {
        let g = ms[i].mypy->0;
        seq![located(group(g, 4), group(g, 3), group(g, 1), group(g, 2))] + scan(
            ms,
            lines,
            i + 1,
            None,
        )
    } else if ms[i].pylint is Some {
        let g = ms[i].pylint->0;
        seq![located(group(g, 3), group(g, 4), group(g, 1), group(g, 2))] + scan(
            ms,
            lines,
            i + 1,
            None,
        )
    } else if ms[i].eslint_file is Some {
        scan(ms, lines, i + 1, Some(trim(lines[i])))
    } else {
        scan(ms, lines, i + 1, None)
    }
}

/// The errors recognised in `lines`.
pub open spec fn recognised(ms: Seq<BuildLineView>, lines: Seq<Seq<char>>) -> Seq<Located> {
    scan(ms, lines, 0, None)
}

/// The errors of one code: its message (from its first error), the line
/// numbers of each file in the order the files first came, and how many
/// errors there were.
pub struct GroupView {
    pub code: Seq<char>,
    pub message: Seq<char>,
    pub files: Seq<(Seq<char>, Seq<usize>)>,
    pub count: nat,
}

/// The index of `file` in `files` from `k` on, or `files.len()`.
pub open spec fn file_index(files: Seq<(Seq<char>, Seq<usize>)>, file: Seq<char>, k: int) -> int
    decreases files.len() - k,
{
    if k >= files.len() {
        files.len() as int
    } else if files[k].0 == file {
        k
    } else {
        file_index(files, file, k + 1)
    }
}

/// The index of the group of `code` in `gs` from `k` on, or `gs.len()`.
pub open spec fn code_index(gs: Seq<GroupView>, code: Seq<char>, k: int) -> int
    decreases gs.len() - k,
{
    if k >= gs.len() {
        gs.len() as int
    } else if gs[k].code == code {
        k
    } else {
        code_index(gs, code, k + 1)
    }
}

/// A group with no errors yet.
pub open spec fn empty_group(code: Seq<char>, message: Seq<char>) -> GroupView {
    GroupView { code, message, files: seq![], count: 0 }
}

/// `g` with one more error, at `file`, line `line`.
pub open spec fn with_location(g: GroupView, file: Seq<char>, line: usize) -> GroupView {
    let k = file_index(g.files, file, 0);
    GroupView {
        code: g.code,
        message: g.message,
        files: if k < g.files.len() {
            g.files.update(k, (file, g.files[k].1.push(line)))
        } else {
            g.files.push((file, seq![line]))
        },
        count: g.count + 1,
    }
}

/// `gs` with the error `e` added to the group of its code.
pub open spec fn with_error(gs: Seq<GroupView>, e: Located) -> Seq<GroupView> {
    let k = code_index(gs, e.code, 0);
    if k < gs.len() {
        gs.update(k, with_location(gs[k], e.file, e.line))
    } else {
        gs.push(with_location(empty_group(e.code, e.message), e.file, e.line))
    }
}

/// The errors `es` grouped by code, groups in the order their codes first came.
pub open spec fn group_errors(es: Seq<Located>) -> Seq<GroupView>
    decreases es.len(),
{
    if es.len() == 0 {
        seq![]
    } else {
        with_error(group_errors(es.drop_last()), es.last())
    }
}

/// Groups with more errors first; equal counts by code.
pub open spec fn group_before(a: GroupView, b: GroupView) -> bool {
    a.count > b.count || (a.count == b.count && lex_lt(a.code, b.code))
}

/// Files with more errors first; equal counts by name.
pub open spec fn file_before(a: (Seq<char>, Seq<usize>), b: (Seq<char>, Seq<usize>)) -> bool {
    a.1.len() > b.1.len() || (a.1.len() == b.1.len() && lex_lt(a.0, b.0))
}

/// The groups in the order they are shown.
pub open spec fn sorted_groups(gs: Seq<GroupView>) -> Seq<GroupView> {
    insertion_sort(gs, |a: GroupView, b: GroupView| group_before(a, b))
}

/// The files of a group in the order they are shown.
pub open spec fn sorted_files(files: Seq<(Seq<char>, Seq<usize>)>) -> Seq<(Seq<char>, Seq<usize>)> {
    insertion_sort(files, |a: (Seq<char>, Seq<usize>), b: (Seq<char>, Seq<usize>)| file_before(a, b))
}

/// `:N` for each line number.
pub open spec fn line_marks(ns: Seq<usize>) -> Seq<Seq<char>> {
    ns.map_values(|n: usize| seq![':'] + dec(n as nat))
}

/// The first line of a group: code, message, and the count when above one.
pub open spec fn header(g: GroupView) -> Seq<char> {
    g.code + ": "@ + g.message + (if g.count > 1 {
        " (x"@ + dec(g.count) + ")"@
    } else {
        seq![]
    }) + seq!['\n']
}

/// The widest file name, in UTF-8 bytes.
pub open spec fn name_width(files: Seq<(Seq<char>, Seq<usize>)>) -> nat
    decreases files.len(),
{
    if files.len() == 0 {
        0
    } else {
        let w = name_width(files.drop_last());
        let n = utf8_len(files.last().0);
        if n > w {
            n
        } else {
            w
        }
    }
}

/// `name` padded with spaces to `width` characters.
pub open spec fn padded(name: Seq<char>, width: nat) -> Seq<char> {
    name + spaces(
        if width > name.len() {
            (width - name.len()) as nat
        } else {
            0
        },
    )
}

/// A file listed on a line of its own: name, then its line numbers.
pub open spec fn inline_line(f: (Seq<char>, Seq<usize>), width: nat) -> Seq<char> {
    "  "@ + padded(f.0, width) + "  "@ + join(line_marks(sorted_unique(f.1)), ", "@) + seq!['\n']
}

/// The line of a listed file without its line break: name padded to
/// `width`, then its distinct line numbers in ascending order.
pub open spec fn file_line(f: (Seq<char>, Seq<usize>), width: nat) -> Seq<char> {
    "  "@ + padded(f.0, width) + "  "@ + join(line_marks(sorted_unique(f.1)), ", "@)
}

/// A file in the compact list: `name(:a,:b)`.
pub open spec fn compact_entry(f: (Seq<char>, Seq<usize>)) -> Seq<char> {
    f.0 + seq!['('] + join(line_marks(sorted_unique(f.1)), ","@) + seq![')']
}

/// How many distinct line numbers a file has.
pub open spec fn unique_lines(f: (Seq<char>, Seq<usize>)) -> nat {
    sorted_unique(f.1).len()
}

/// How many errors a file has.
pub open spec fn file_errors(f: (Seq<char>, Seq<usize>)) -> nat {
    f.1.len()
}

/// The files listed one per line.
pub open spec fn inline_count(n: nat) -> nat {
    if n < INLINE_LIMIT {
        n
    } else {
        INLINE_LIMIT as nat
    }
}

/// The summary line of the files beyond the inline ones.
pub open spec fn rest_line(g: GroupView, fs: Seq<(Seq<char>, Seq<usize>)>) -> Seq<char> {
    let shown = sum_of(fs.take(INLINE_LIMIT as int), |f: (Seq<char>, Seq<usize>)| unique_lines(f));
    "  ... +"@ + dec((fs.len() - INLINE_LIMIT) as nat) + " files ("@ + dec((g.count - shown) as nat)
        + " occurrences): "@ + join(fs.skip(INLINE_LIMIT as int).map_values(|f: (Seq<char>, Seq<usize>)| compact_entry(f)), ", "@)
        + seq!['\n']
}

/// The text shown for one group, file names padded to `w`.
pub open spec fn group_text(g: GroupView, w: nat) -> Seq<char> {
    let fs = sorted_files(g.files);
    header(g) + concat(
        fs.take(inline_count(fs.len()) as int).map_values(|f: (Seq<char>, Seq<usize>)| inline_line(f, w)),
    ) + if fs.len() > INLINE_LIMIT {
        rest_line(g, fs)
    } else {
        seq![]
    }
}

/// The widest file name of all groups, in UTF-8 bytes: the width to which
/// every listed file name of the report is padded.
pub open spec fn report_width(gs: Seq<GroupView>) -> nat
    decreases gs.len(),
{
    if gs.len() == 0 {
        0
    } else {
        let w = report_width(gs.drop_last());
        let n = name_width(gs.last().files);
        if n > w {
            n
        } else {
            w
        }
    }
}

/// The text of each group, one after another, file names padded to the
/// widest of the whole report.
pub open spec fn groups_text(gs: Seq<GroupView>) -> Seq<char> {
    let w = report_width(gs);
    concat(gs.map_values(|g: GroupView| group_text(g, w)))
}

/// The grouped report of the errors `es`.
pub open spec fn report(es: Seq<Located>) -> Seq<char> {
    trim_end(groups_text(sorted_groups(group_errors(es))))
}

/// What the build-error grouping gives for `input`, given what the patterns
/// find on each of its lines: the report, or `input` itself when no error is
/// recognised.
pub open spec fn build_output(input: Seq<char>, ms: Seq<BuildLineView>) -> Seq<char> {
    let es = recognised(ms, split_lines(input));
    if es.len() == 0 {
        input
    } else {
        report(es)
    }
}

// ---------------------------------------------------------------------------
// Code: recognising errors
// ---------------------------------------------------------------------------

/// What each build-error pattern found on one line.
pub struct BuildLineMatches {
    pub tsc: Option<Vec<Option<String>>>,
    pub cargo_header: Option<Vec<Option<String>>>,
    pub cargo_location: Option<Vec<Option<String>>>,
    pub mypy: Option<Vec<Option<String>>>,
    pub pylint: Option<Vec<Option<String>>>,
    pub eslint_file: Option<Vec<Option<String>>>,
    pub eslint_issue: Option<Vec<Option<String>>>,
}

impl View for BuildLineMatches {
    type V = BuildLineView;

    open spec fn view(&self) -> BuildLineView {
        BuildLineView {
            tsc: self.tsc.deep_view(),
            cargo_header: self.cargo_header.deep_view(),
            cargo_location: self.cargo_location.deep_view(),
            mypy: self.mypy.deep_view(),
            pylint: self.pylint.deep_view(),
            eslint_file: self.eslint_file.deep_view(),
            eslint_issue: self.eslint_issue.deep_view(),
        }
    }
}

/// The values of per-line matches.
pub open spec fn line_views(ms: Seq<BuildLineMatches>) -> Seq<BuildLineView> {
    ms.map_values(|m: BuildLineMatches| m@)
}

/// What the patterns find on each of `lines`.
pub open spec fn lines_matched(lines: Seq<Seq<char>>) -> Seq<BuildLineView> {
    lines.map_values(|l: Seq<char>| build_line_view(l))
}

/// The build-error regexes, built.
pub struct BuildPatterns {
    tsc: Pattern,
    cargo_header: Pattern,
    cargo_location: Pattern,
    mypy: Pattern,
    pylint: Pattern,
    eslint_file: Pattern,
    eslint_issue: Pattern,
}

impl BuildPatterns {
    /// Each regex was built from its pattern.
    pub closed spec fn wf(&self) -> bool {
        &&& self.tsc.source() == TSC_ERROR@
        &&& self.cargo_header.source() == CARGO_ERROR_HEADER@
        &&& self.cargo_location.source() == CARGO_LOCATION@
        &&& self.mypy.source() == MYPY_ERROR@
        &&& self.pylint.source() == PYLINT_ERROR@
        &&& self.eslint_file.source() == ESLINT_FILE@
        &&& self.eslint_issue.source() == ESLINT_ISSUE@
    }

    /// Builds every regex; `None` if the engine refuses one.
    pub fn build() -> (r: Option<BuildPatterns>)
        ensures
            r is Some == build_patterns_accepted(),
            r matches Some(p) ==> p.wf(),
    {
        let tsc = Pattern::build(TSC_ERROR);
        let cargo_header = Pattern::build(CARGO_ERROR_HEADER);
        let cargo_location = Pattern::build(CARGO_LOCATION);
        let mypy = Pattern::build(MYPY_ERROR);
        let pylint = Pattern::build(PYLINT_ERROR);
        let eslint_file = Pattern::build(ESLINT_FILE);
        let eslint_issue = Pattern::build(ESLINT_ISSUE);
        match (tsc, cargo_header, cargo_location, mypy, pylint, eslint_file, eslint_issue) {
            (
                Some(tsc),
                Some(cargo_header),
                Some(cargo_location),
                Some(mypy),
                Some(pylint),
                Some(eslint_file),
                Some(eslint_issue),
            ) => Some(
                BuildPatterns {
                    tsc,
                    cargo_header,
                    cargo_location,
                    mypy,
                    pylint,
                    eslint_file,
                    eslint_issue,
                },
            ),
            _ => None,
        }
    }

    /// What each pattern finds on `line`.
    pub fn match_line(&self, line: &[char]) -> (r: BuildLineMatches)
        requires
            self.wf(),
        ensures
            r@ == build_line_view(line@),
    {
        BuildLineMatches {
            tsc: self.tsc.captures_in(line),
            cargo_header: self.cargo_header.captures_in(line),
            cargo_location: self.cargo_location.captures_in(line),
            mypy: self.mypy.captures_in(line),
            pylint: self.pylint.captures_in(line),
            eslint_file: self.eslint_file.captures_in(line),
            eslint_issue: self.eslint_issue.captures_in(line),
        }
    }

    /// What each pattern finds on each of `lines`.
    pub fn match_lines(&self, lines: &Vec<Vec<char>>) -> (r: Vec<BuildLineMatches>)
        requires
            self.wf(),
        ensures
            r.len() == lines.len(),
            line_views(r@) == lines_matched(lines.deep_view()),
    {
        let mut r: Vec<BuildLineMatches> = Vec::new();
        let mut i: usize = 0;
        while i < lines.len()
            invariant
                self.wf(),
                0 <= i <= lines.len(),
                r.len() == i,
                line_views(r@) == lines_matched(lines.deep_view()).take(i as int),
            decreases lines.len() - i,
        {
            let m = self.match_line(&lines[i]);
            proof {
                assert(lines@[i as int].deep_view() =~= lines@[i as int]@);
            }
            r.push(m);
            i += 1;
            assert(line_views(r@) =~= lines_matched(lines.deep_view()).take(i as int));
        }
        assert(lines_matched(lines.deep_view()).take(i as int) =~= lines_matched(lines.deep_view()));
        r
    }
}

/// One recognised error.
pub struct BuildError {
    pub code: Vec<char>,
    pub message: Vec<char>,
    pub file: Vec<char>,
    pub line: usize,
}

impl View for BuildError {
    type V = Located;

    open spec fn view(&self) -> Located {
        Located { code: self.code@, message: self.message@, file: self.file@, line: self.line }
    }
}

/// The values of recognised errors.
pub open spec fn error_views(es: Seq<BuildError>) -> Seq<Located> {
    es.map_values(|e: BuildError| e@)
}

/// The line number written in group `i`, or 0.
fn line_number_in(g: &Vec<Option<String>>, i: usize) -> (n: usize)
    ensures
        n == line_number(group(g.deep_view(), i as int)),
{
    let t = group_chars_or(g, i, "");
    proof {
        reveal_strlit("");
        assert(""@ =~= Seq::<char>::empty());
    }
    match parse_usize_chars(&t) {
        Some(v) => v,
        None => 0,
    }
}

/// The error with code in group `c`, message in group `m`, file in group `f`
/// of `fg` and line number in group `n` of `fg`.
fn error_from(
    g: &Vec<Option<String>>,
    c: usize,
    m: usize,
    fg: &Vec<Option<String>>,
    f: usize,
    n: usize,
) -> (e: BuildError)
    ensures
        e@ == located(
            group(g.deep_view(), c as int),
            group(g.deep_view(), m as int),
            group(fg.deep_view(), f as int),
            group(fg.deep_view(), n as int),
        ),
{
    proof {
        reveal_strlit("");
        assert(""@ =~= Seq::<char>::empty());
    }
    BuildError {
        code: group_chars_or(g, c, ""),
        message: group_chars_or(g, m, ""),
        file: group_chars_or(fg, f, ""),
        line: line_number_in(fg, n),
    }
}

/// The first line in `i + 1 ..= i + 5` where cargo's location pattern matched.
fn find_cargo_location(ms: &Vec<BuildLineMatches>, i: usize) -> (r: Option<usize>)
    requires
        i < ms.len(),
    ensures
        match r {
            Some(j) => j < ms.len() && ms@[j as int].cargo_location is Some && cargo_location_near(
                line_views(ms@),
                i as int,
                i + 1,
            ) == ms@[j as int].cargo_location.deep_view(),
            None => cargo_location_near(line_views(ms@), i as int, i + 1) is None,
        },
{
    let ghost msv = line_views(ms@);
    let mut j: usize = i + 1;
    while j < ms.len() && j - i <= 5
        invariant
            i < j <= ms.len(),
            j - i <= 6,
            msv == line_views(ms@),
            cargo_location_near(msv, i as int, i + 1) == cargo_location_near(msv, i as int, j as int),
        decreases ms.len() - j,
    {
        if ms[j].cargo_location.is_some() {
            return Some(j);
        }
        j += 1;
    }
    None
}

/// The errors recognised in `lines`, given what the patterns found on them.
fn collect_errors(lines: &Vec<Vec<char>>, ms: &Vec<BuildLineMatches>) -> (es: Vec<BuildError>)
    requires
        ms.len() == lines.len(),
    ensures
        error_views(es@) == recognised(line_views(ms@), lines.deep_view()),
{
    let ghost msv = line_views(ms@);
    let ghost lv = lines.deep_view();
    let ghost total = scan(msv, lv, 0, None);
    let mut es: Vec<BuildError> = Vec::new();
    let mut i: usize = 0;
    assert(error_views(es@) + total =~= total);
    while i < lines.len()
        invariant
            0 <= i <= lines.len(),
            ms.len() == lines.len(),
            msv == line_views(ms@),
            lv == lines.deep_view(),
            total == scan(msv, lv, 0, None),
            error_views(es@) + scan(msv, lv, i as int, None) == total,
        decreases lines.len() - i,
    {
        let ghost before = error_views(es@);
        let m = &ms[i];
        if let Some(g) = &m.tsc {
            es.push(error_from(g, 3, 4, g, 1, 2));
            assert(error_views(es@) =~= before.push(es@.last()@));
            assert(before + scan(msv, lv, i as int, None) =~= error_views(es@) + scan(msv, lv, i + 1, None));
            i += 1;
        } else if let Some(g) = &m.cargo_header {
            match find_cargo_location(ms, i) {
                Some(j) => {
                    match &ms[j].cargo_location {
                        Some(l) => {
                            es.push(error_from(g, 1, 2, l, 1, 2));
                            assert(error_views(es@) =~= before.push(es@.last()@));
                            assert(before + scan(msv, lv, i as int, None) =~= error_views(es@) + scan(msv, lv, i + 1, None));
                        },
                        None => {},
                    }
                },
                None => {},
            }
            i += 1;
        } else if let Some(g) = &m.mypy {
            es.push(error_from(g, 4, 3, g, 1, 2));
            assert(error_views(es@) =~= before.push(es@.last()@));
            assert(before + scan(msv, lv, i as int, None) =~= error_views(es@) + scan(msv, lv, i + 1, None));
            i += 1;
        } else if let Some(g) = &m.pylint {
            es.push(error_from(g, 3, 4, g, 1, 2));
            assert(error_views(es@) =~= before.push(es@.last()@));
            assert(before + scan(msv, lv, i as int, None) =~= error_views(es@) + scan(msv, lv, i + 1, None));
            i += 1;
        } else if m.eslint_file.is_some() {
            let file = trim_chars(&lines[i]);
            proof {
                assert(lines@[i as int].deep_view() =~= lines@[i as int]@);
            }
            let ghost mode = Some(file@);
            let mut j: usize = i + 1;
            let mut reading = true;
            while reading && j < lines.len()
                invariant
                    i < j <= lines.len(),
                    ms.len() == lines.len(),
                    msv == line_views(ms@),
                    lv == lines.deep_view(),
                    mode == Some(file@),
                    reading ==> error_views(es@) + scan(msv, lv, j as int, mode) == total,
                    !reading ==> error_views(es@) + scan(msv, lv, j as int, None) == total,
                decreases lines.len() - j, if reading { 1int } else { 0int },
            {
                let ghost before_j = error_views(es@);
                if let Some(g) = &ms[j].eslint_issue {
                    proof {
                        reveal_strlit("");
                        assert(""@ =~= Seq::<char>::empty());
                    }
                    let e = BuildError {
                        code: group_chars_or(g, 3, ""),
                        message: group_chars_or(g, 2, ""),
                        file: slice_chars(&file, 0, file.len()),
                        line: line_number_in(g, 1),
                    };
                    assert(file@.subrange(0, file@.len() as int) =~= file@);
                    assert(msv[j as int].eslint_issue == Some(g.deep_view()));
                    assert(e@ == located(group(g.deep_view(), 3), group(g.deep_view(), 2), file@, group(g.deep_view(), 1)));
                    es.push(e);
                    assert(error_views(es@) =~= before_j.push(es@.last()@));
                    assert(before_j + scan(msv, lv, j as int, mode) =~= error_views(es@) + scan(msv, lv, j + 1, mode));
                    j += 1;
                } else {
                    let t = trim_chars(&lines[j]);
                    proof {
                        assert(lines@[j as int].deep_view() =~= lines@[j as int]@);
                    }
                    if t.len() == 0 {
                        j += 1;
                    }
                    reading = false;
                }
            }
            i = j;
        } else {
            i += 1;
        }
    }
    es
}

// ---------------------------------------------------------------------------
// Code: grouping
// ---------------------------------------------------------------------------

/// The errors of one code as they are gathered: its message, the line
/// numbers of each file, and how many errors there are.
struct ErrorGroup {
    code: Vec<char>,
    message: Vec<char>,
    locations: Vec<(Vec<char>, Vec<usize>)>,
    count: usize,
}

impl View for ErrorGroup {
    type V = GroupView;

    closed spec fn view(&self) -> GroupView {
        GroupView {
            code: self.code@,
            message: self.message@,
            files: self.locations.deep_view(),
            count: self.count as nat,
        }
    }
}

/// The values of groups.
spec fn group_views(gs: Seq<ErrorGroup>) -> Seq<GroupView> {
    gs.map_values(|g: ErrorGroup| g@)
}

/// A copy of the characters `s`.
fn copy_chars(s: &[char]) -> (r: Vec<char>)
    ensures
        r@ == s@,
{
    let r = slice_chars(s, 0, s.len());
    assert(s@.subrange(0, s@.len() as int) =~= s@);
    r
}

impl ErrorGroup {
    /// A group of the code `code` with no errors yet.
    fn new(code: &[char], message: &[char]) -> (g: ErrorGroup)
        ensures
            g@ == empty_group(code@, message@),
    {
        let g = ErrorGroup {
            code: copy_chars(code),
            message: copy_chars(message),
            locations: Vec::new(),
            count: 0,
        };
        assert(g.locations.deep_view() =~= Seq::<(Seq<char>, Seq<usize>)>::empty());
        g
    }

    /// Records one more error at `file`, line `line`.
    fn add_location(&mut self, file: &[char], line: usize)
        requires
            old(self).count < usize::MAX,
        ensures
            final(self)@ == with_location(old(self)@, file@, line),
    {
        let ghost files = self.locations.deep_view();
        let mut k: usize = 0;
        while k < self.locations.len() && !crate::text::same_chars(&self.locations[k].0, file)
            invariant
                0 <= k <= self.locations.len(),
                files == self.locations.deep_view(),
                file_index(files, file@, 0) == file_index(files, file@, k as int),
            decreases self.locations.len() - k,
        {
            assert(self.locations@[k as int].0.deep_view() =~= self.locations@[k as int].0@);
            k += 1;
        }
        if k < self.locations.len() {
            assert(self.locations@[k as int].0.deep_view() =~= self.locations@[k as int].0@);
            let (name, mut nums) = self.locations.remove(k);
            let ghost old_nums = nums@;
            assert(files[k as int].1 =~= old_nums);
            nums.push(line);
            assert(nums.deep_view() =~= old_nums.push(line));
            assert(name.deep_view() =~= file@);
            self.locations.insert(k, (name, nums));
            assert(self.locations.deep_view() =~= files.update(
                k as int,
                (file@, files[k as int].1.push(line)),
            ));
        } else {
            let mut nums: Vec<usize> = Vec::new();
            nums.push(line);
            let name = copy_chars(file);
            assert(nums.deep_view() =~= seq![line]);
            assert(name.deep_view() =~= file@);
            self.locations.push((name, nums));
            assert(self.locations.deep_view() =~= files.push((file@, seq![line])));
        }
        self.count = self.count + 1;
    }
}

/// The errors `es` grouped by code, in the order their codes first came.
fn group_all(es: &Vec<BuildError>) -> (gs: Vec<ErrorGroup>)
    ensures
        group_views(gs@) == group_errors(error_views(es@)),
{
    let ghost ev = error_views(es@);
    let mut gs: Vec<ErrorGroup> = Vec::new();
    let mut i: usize = 0;
    assert(group_views(gs@) =~= group_errors(ev.take(0)));
    while i < es.len()
        invariant
            0 <= i <= es.len(),
            ev == error_views(es@),
            group_views(gs@) == group_errors(ev.take(i as int)),
            forall|k: int| 0 <= k < gs.len() ==> gs@[k].count <= i,
        decreases es.len() - i,
    {
        let e = &es[i];
        let ghost gv = group_views(gs@);
        assert(ev.take(i + 1).drop_last() =~= ev.take(i as int));
        let mut k: usize = 0;
        while k < gs.len() && !crate::text::same_chars(&gs[k].code, &e.code)
            invariant
                0 <= k <= gs.len(),
                gv == group_views(gs@),
                code_index(gv, e.code@, 0) == code_index(gv, e.code@, k as int),
            decreases gs.len() - k,
        {
            k += 1;
        }
        if k < gs.len() {
            let mut g = gs.remove(k);
            g.add_location(&e.file, e.line);
            gs.insert(k, g);
            assert(group_views(gs@) =~= gv.update(k as int, with_location(gv[k as int], e.file@, e.line)));
        } else {
            let mut g = ErrorGroup::new(&e.code, &e.message);
            g.add_location(&e.file, e.line);
            gs.push(g);
            assert(group_views(gs@) =~= gv.push(with_location(empty_group(e.code@, e.message@), e.file@, e.line)));
        }
        i += 1;
    }
    assert(ev.take(es.len() as int) =~= ev);
    gs
}

// ---------------------------------------------------------------------------
// Grouping keeps the count of a group equal to its errors
// ---------------------------------------------------------------------------

/// The count of a group is the number of line numbers it holds.
pub open spec fn group_ok(g: GroupView) -> bool {
    g.count == sum_of(g.files, |f: (Seq<char>, Seq<usize>)| file_errors(f))
}

/// Adding an error keeps a group's count right.
proof fn lemma_with_location_ok(g: GroupView, file: Seq<char>, line: usize)
    requires
        group_ok(g),
    ensures
        group_ok(with_location(g, file, line)),
{
    let fe = |f: (Seq<char>, Seq<usize>)| file_errors(f);
    let k = file_index(g.files, file, 0);
    lemma_file_index_bounds(g.files, file, 0);
    if k < g.files.len() {
        lemma_sum_update(g.files, k, (file, g.files[k].1.push(line)), fe);
    } else {
        assert(g.files.push((file, seq![line])).drop_last() =~= g.files);
    }
}

/// The file index lies within the files, at or after `k`.
proof fn lemma_file_index_bounds(files: Seq<(Seq<char>, Seq<usize>)>, file: Seq<char>, k: int)
    requires
        0 <= k <= files.len(),
    ensures
        k <= file_index(files, file, k) <= files.len(),
        file_index(files, file, k) < files.len() ==> files[file_index(files, file, k)].0 == file,
    decreases files.len() - k,
{
    if k < files.len() && files[k].0 != file {
        lemma_file_index_bounds(files, file, k + 1);
    }
}

/// The code index lies within the groups, at or after `k`.
proof fn lemma_code_index_bounds(gs: Seq<GroupView>, code: Seq<char>, k: int)
    requires
        0 <= k <= gs.len(),
    ensures
        k <= code_index(gs, code, k) <= gs.len(),
        code_index(gs, code, k) < gs.len() ==> gs[code_index(gs, code, k)].code == code,
    decreases gs.len() - k,
{
    if k < gs.len() && gs[k].code != code {
        lemma_code_index_bounds(gs, code, k + 1);
    }
}

/// Law: recording an error at `file`, line `line`, counts it once: the
/// group's count grows by one, the file is listed once with that line among
/// its own, every other file keeps its lines, and a group whose count
/// matched its files' line numbers still does.
pub proof fn law_location_counted(g: GroupView, file: Seq<char>, line: usize)
    ensures
        with_location(g, file, line).count == g.count + 1,
        exists|f: int|
            0 <= f < with_location(g, file, line).files.len() && (#[trigger] with_location(g, file, line).files[f]).0
                == file && with_location(g, file, line).files[f].1.contains(line),
        forall|f: int|
            0 <= f < g.files.len() && (#[trigger] g.files[f]).0 != file ==> with_location(g, file, line).files[f]
                == g.files[f],
        group_ok(g) ==> group_ok(with_location(g, file, line)),
{
    let k = file_index(g.files, file, 0);
    lemma_file_index_bounds(g.files, file, 0);
    let h = with_location(g, file, line);
    if k < g.files.len() {
        assert(h.files[k].1 == g.files[k].1.push(line));
        assert(h.files[k].1[g.files[k].1.len() as int] == line);
    } else {
        assert(h.files[g.files.len() as int].1 == seq![line]);
        assert(h.files[g.files.len() as int].1[0] == line);
    }
    if group_ok(g) {
        lemma_with_location_ok(g, file, line);
    }
}

/// Every group made from errors has its count right.
pub proof fn lemma_groups_ok(es: Seq<Located>)
    ensures
        forall|k: int| 0 <= k < group_errors(es).len() ==> group_ok(#[trigger] group_errors(es)[k]),
    decreases es.len(),
{
    if es.len() > 0 {
        let gs = group_errors(es.drop_last());
        lemma_groups_ok(es.drop_last());
        let e = es.last();
        let c = code_index(gs, e.code, 0);
        lemma_code_index_bounds(gs, e.code, 0);
        if c < gs.len() {
            lemma_with_location_ok(gs[c], e.file, e.line);
        } else {
            let g0 = empty_group(e.code, e.message);
            assert(group_ok(g0));
            lemma_with_location_ok(g0, e.file, e.line);
        }
    }
}

/// The groups in the order they are shown all have their counts right.
proof fn lemma_sorted_groups_ok(es: Seq<Located>)
    ensures
        forall|k: int|
            0 <= k < sorted_groups(group_errors(es)).len() ==> group_ok(
                #[trigger] sorted_groups(group_errors(es))[k],
            ),
{
    let gs = group_errors(es);
    lemma_groups_ok(es);
    assert forall|k: int| 0 <= k < sorted_groups(gs).len() implies group_ok(
        #[trigger] sorted_groups(gs)[k],
    ) by {
        lemma_sort_elements(gs, |a: GroupView, b: GroupView| group_before(a, b), k);
    }
}

// ---------------------------------------------------------------------------
// Code: ordering and rendering
// ---------------------------------------------------------------------------

/// Group `a` is shown before group `b`.
fn group_comes_first(a: &ErrorGroup, b: &ErrorGroup) -> (r: bool)
    ensures
        r == group_before(a@, b@),
{
    a.count > b.count || (a.count == b.count && lex_less(&a.code, &b.code))
}

/// The groups in the order they are shown.
fn sort_groups(gs: Vec<ErrorGroup>) -> (r: Vec<ErrorGroup>)
    ensures
        group_views(r@) == sorted_groups(group_views(gs@)),
{
    let ghost orig = group_views(gs@);
    let ghost before = |a: GroupView, b: GroupView| group_before(a, b);
    let mut rest = gs;
    let mut sorted: Vec<ErrorGroup> = Vec::new();
    let ghost mut i: int = 0;
    assert(group_views(rest@) =~= orig.skip(0));
    assert(group_views(sorted@) =~= insertion_sort(orig.take(0), before));
    while rest.len() > 0
        invariant
            0 <= i <= orig.len(),
            i + rest.len() == orig.len(),
            group_views(rest@) == orig.skip(i),
            group_views(sorted@) == insertion_sort(orig.take(i), before),
            before == (|a: GroupView, b: GroupView| group_before(a, b)),
        decreases rest.len(),
    {
        let ghost sv = group_views(sorted@);
        let ghost rv = group_views(rest@);
        let x = rest.remove(0);
        assert(x@ == rv[0]);
        assert(rv[0] == orig[i]);
        assert(group_views(rest@) =~= rv.drop_first());
        proof {
            lemma_sort_len(orig.take(i), before);
        }
        let mut k: usize = 0;
        while k < sorted.len() && !group_comes_first(&x, &sorted[k])
            invariant
                0 <= k <= sorted.len(),
                sv == group_views(sorted@),
                insert_index(sv, x@, before, 0) == insert_index(sv, x@, before, k as int),
                before == (|a: GroupView, b: GroupView| group_before(a, b)),
            decreases sorted.len() - k,
        {
            k += 1;
        }
        sorted.insert(k, x);
        assert(orig.take(i + 1).drop_last() =~= orig.take(i));
        assert(group_views(sorted@) =~= sv.insert(k as int, x@));
        proof {
            i = i + 1;
        }
        assert(rv.drop_first() =~= orig.skip(i));
    }
    assert(orig.take(i) =~= orig);
    sorted
}

/// File `a` is listed before file `b`.
fn file_comes_first(a: &(Vec<char>, Vec<usize>), b: &(Vec<char>, Vec<usize>)) -> (r: bool)
    ensures
        r == file_before(a.deep_view(), b.deep_view()),
{
    assert(a.0.deep_view() =~= a.0@);
    assert(b.0.deep_view() =~= b.0@);
    a.1.len() > b.1.len() || (a.1.len() == b.1.len() && lex_less(&a.0, &b.0))
}

/// The files in the order they are listed.
fn sort_files(fs: Vec<(Vec<char>, Vec<usize>)>) -> (r: Vec<(Vec<char>, Vec<usize>)>)
    ensures
        r.deep_view() == sorted_files(fs.deep_view()),
{
    let ghost orig = fs.deep_view();
    let ghost before = |a: (Seq<char>, Seq<usize>), b: (Seq<char>, Seq<usize>)| file_before(a, b);
    let mut rest = fs;
    let mut sorted: Vec<(Vec<char>, Vec<usize>)> = Vec::new();
    let ghost mut i: int = 0;
    assert(rest.deep_view() =~= orig.skip(0));
    assert(sorted.deep_view() =~= insertion_sort(orig.take(0), before));
    while rest.len() > 0
        invariant
            0 <= i <= orig.len(),
            i + rest.len() == orig.len(),
            rest.deep_view() == orig.skip(i),
            sorted.deep_view() == insertion_sort(orig.take(i), before),
            before == (|a: (Seq<char>, Seq<usize>), b: (Seq<char>, Seq<usize>)| file_before(a, b)),
        decreases rest.len(),
    {
        let ghost sv = sorted.deep_view();
        let ghost rv = rest.deep_view();
        let x = rest.remove(0);
        assert(x.deep_view() == rv[0]);
        assert(rest.deep_view() =~= rv.drop_first());
        proof {
            lemma_sort_len(orig.take(i), before);
        }
        let mut k: usize = 0;
        while k < sorted.len() && !file_comes_first(&x, &sorted[k])
            invariant
                0 <= k <= sorted.len(),
                sv == sorted.deep_view(),
                insert_index(sv, x.deep_view(), before, 0) == insert_index(
                    sv,
                    x.deep_view(),
                    before,
                    k as int,
                ),
                before == (|a: (Seq<char>, Seq<usize>), b: (Seq<char>, Seq<usize>)| file_before(a, b)),
            decreases sorted.len() - k,
        {
            k += 1;
        }
        sorted.insert(k, x);
        assert(orig.take(i + 1).drop_last() =~= orig.take(i));
        assert(sorted.deep_view() =~= sv.insert(k as int, x.deep_view()));
        proof {
            i = i + 1;
        }
        assert(rv.drop_first() =~= orig.skip(i));
    }
    assert(orig.take(i) =~= orig);
    sorted
}

/// `:N` for each line number.
fn marks_of(ns: &Vec<usize>) -> (r: Vec<Vec<char>>)
    ensures
        r.deep_view() == line_marks(ns@),
{
    let mut r: Vec<Vec<char>> = Vec::new();
    let mut i: usize = 0;
    while i < ns.len()
        invariant
            0 <= i <= ns.len(),
            r.deep_view() == line_marks(ns@.take(i as int)),
        decreases ns.len() - i,
    {
        let mut m: Vec<char> = Vec::new();
        m.push(':');
        push_dec(&mut m, ns[i]);
        let ghost rv = r.deep_view();
        assert(m.deep_view() =~= m@);
        r.push(m);
        assert(r.deep_view() =~= rv.push(seq![':'] + dec(ns@[i as int] as nat)));
        assert(line_marks(ns@.take(i + 1)) =~= line_marks(ns@.take(i as int)).push(
            seq![':'] + dec(ns@[i as int] as nat),
        ));
        i += 1;
    }
    assert(ns@.take(ns.len() as int) =~= ns@);
    r
}

/// The widest file name, in UTF-8 bytes.
fn name_width_of(fs: &Vec<(Vec<char>, Vec<usize>)>) -> (w: u128)
    ensures
        w as nat == name_width(fs.deep_view()),
{
    let mut w: u128 = 0;
    let mut i: usize = 0;
    while i < fs.len()
        invariant
            0 <= i <= fs.len(),
            w as nat == name_width(fs.deep_view().take(i as int)),
            w <= 4 * usize::MAX,
        decreases fs.len() - i,
    {
        assert(fs.deep_view().take(i + 1).drop_last() =~= fs.deep_view().take(i as int));
        assert(fs@[i as int].0.deep_view() =~= fs@[i as int].0@);
        let _chars = fs[i].0.len();
        let n = utf8_len_of(&fs[i].0);
        proof {
            crate::text::lemma_utf8_len_bound(fs@[i as int].0@);
        }
        if n > w {
            w = n;
        }
        i += 1;
    }
    assert(fs.deep_view().take(fs.len() as int) =~= fs.deep_view());
    w
}

/// The widest file name of all groups, in UTF-8 bytes.
fn report_width_of(gs: &Vec<ErrorGroup>) -> (w: u128)
    ensures
        w as nat == report_width(group_views(gs@)),
{
    let ghost gv = group_views(gs@);
    let mut w: u128 = 0;
    let mut i: usize = 0;
    while i < gs.len()
        invariant
            0 <= i <= gs.len(),
            gv == group_views(gs@),
            w as nat == report_width(gv.take(i as int)),
        decreases gs.len() - i,
    {
        assert(gv.take(i + 1).drop_last() =~= gv.take(i as int));
        let n = name_width_of(&gs[i].locations);
        if n > w {
            w = n;
        }
        i += 1;
    }
    assert(gv.take(gs.len() as int) =~= gv);
    w
}

/// Appends the lines of a group's listed files.
fn push_inline_lines(out: &mut Vec<char>, fs: &Vec<(Vec<char>, Vec<usize>)>, n: usize, w: u128) -> (shown: usize)
    requires
        n <= fs.len(),
        sum_of(fs.deep_view().take(n as int), |f: (Seq<char>, Seq<usize>)| unique_lines(f)) <= usize::MAX,
    ensures
        final(out)@ == old(out)@ + concat(
            fs.deep_view().take(n as int).map_values(
                |f: (Seq<char>, Seq<usize>)| inline_line(f, w as nat),
            ),
        ),
        shown == sum_of(fs.deep_view().take(n as int), |f: (Seq<char>, Seq<usize>)| unique_lines(f)),
{
    let ghost start = out@;
    let ghost fv = fs.deep_view();
    let ghost line_of = |f: (Seq<char>, Seq<usize>)| inline_line(f, w as nat);
    let ghost ul = |f: (Seq<char>, Seq<usize>)| unique_lines(f);
    let mut shown: usize = 0;
    let mut idx: usize = 0;
    assert(fv.take(0).map_values(line_of) =~= Seq::<Seq<char>>::empty());
    while idx < n
        invariant
            0 <= idx <= n <= fs.len(),
            fv == fs.deep_view(),
            line_of == (|f: (Seq<char>, Seq<usize>)| inline_line(f, w as nat)),
            ul == (|f: (Seq<char>, Seq<usize>)| unique_lines(f)),
            sum_of(fv.take(n as int), ul) <= usize::MAX,
            out@ == start + concat(fv.take(idx as int).map_values(line_of)),
            shown == sum_of(fv.take(idx as int), ul),
        decreases n - idx,
    {
        let ghost before = out@;
        let f = &fs[idx];
        let nums = sort_unique_numbers(&f.1);
        let marks = marks_of(&nums);
        let sep = chars_of(", ");
        let joined = join_with(&marks, &sep);
        assert(f.0.deep_view() =~= f.0@);
        assert(f.1.deep_view() =~= f.1@);
        push_str(out, "  ");
        push_chars(out, &f.0);
        let len = f.0.len() as u128;
        let pad: u128 = if w > len {
            w - len
        } else {
            0
        };
        push_spaces(out, pad);
        push_str(out, "  ");
        push_chars(out, &joined);
        out.push('\n');
        proof {
            let fi = fv[idx as int];
            assert(fi == (f.0@, f.1@));
            assert(out@ =~= before + line_of(fi));
            assert(fv.take(idx + 1).map_values(line_of).drop_last() =~= fv.take(idx as int).map_values(line_of));
            assert(fv.take(idx + 1).drop_last() =~= fv.take(idx as int));
            lemma_sum_prefix(fv.take(n as int), idx + 1, ul);
            assert(fv.take(n as int).take(idx + 1) =~= fv.take(idx + 1));
        }
        shown = shown + nums.len();
        idx += 1;
    }
    shown
}

/// A file has no more distinct line numbers than errors.
proof fn lemma_unique_le(f: (Seq<char>, Seq<usize>))
    ensures
        unique_lines(f) <= file_errors(f),
{
    let before = |a: usize, b: usize| crate::order::num_before(a, b);
    lemma_sort_len(f.1, before);
    lemma_dedup_len(insertion_sort(f.1, before));
}

/// A file in the compact list: `name(:a,:b)`.
fn compact_entry_of(f: &(Vec<char>, Vec<usize>)) -> (e: Vec<char>)
    ensures
        e@ == compact_entry(f.deep_view()),
{
    let nums = sort_unique_numbers(&f.1);
    let marks = marks_of(&nums);
    let comma = chars_of(",");
    let joined = join_with(&marks, &comma);
    assert(f.0.deep_view() =~= f.0@);
    assert(f.1.deep_view() =~= f.1@);
    let mut e: Vec<char> = Vec::new();
    push_chars(&mut e, &f.0);
    e.push('(');
    push_chars(&mut e, &joined);
    e.push(')');
    proof {
        assert(joined@ == join(line_marks(sorted_unique(f.1@)), ","@));
        assert(e@ =~= f.0@ + seq!['('] + joined@ + seq![')']);
    }
    e
}

/// The files beyond the inline ones, each as `name(:a,:b)`.
fn compact_entries(fs: &Vec<(Vec<char>, Vec<usize>)>) -> (r: Vec<Vec<char>>)
    requires
        fs.len() >= INLINE_LIMIT,
    ensures
        r.deep_view() == fs.deep_view().skip(INLINE_LIMIT as int).map_values(
            |f: (Seq<char>, Seq<usize>)| compact_entry(f),
        ),
{
    let ghost fv = fs.deep_view();
    let ghost entry = |f: (Seq<char>, Seq<usize>)| compact_entry(f);
    let mut r: Vec<Vec<char>> = Vec::new();
    let mut i: usize = INLINE_LIMIT;
    assert(r.deep_view() =~= fv.subrange(INLINE_LIMIT as int, i as int).map_values(entry));
    while i < fs.len()
        invariant
            INLINE_LIMIT <= i <= fs.len(),
            fv == fs.deep_view(),
            entry == (|f: (Seq<char>, Seq<usize>)| compact_entry(f)),
            r.deep_view() == fv.subrange(INLINE_LIMIT as int, i as int).map_values(entry),
        decreases fs.len() - i,
    {
        let e = compact_entry_of(&fs[i]);
        let ghost rv = r.deep_view();
        assert(e.deep_view() =~= e@);
        r.push(e);
        assert(r.deep_view() =~= rv.push(compact_entry(fv[i as int])));
        i += 1;
        assert(fv.subrange(INLINE_LIMIT as int, i as int).map_values(entry) =~= rv.push(
            compact_entry(fv[i - 1]),
        ));
    }
    assert(fv.subrange(INLINE_LIMIT as int, fs.len() as int) =~= fv.skip(INLINE_LIMIT as int));
    r
}

/// Appends the text shown for one group.
#[verifier::rlimit(40)]
fn push_group(out: &mut Vec<char>, g: ErrorGroup, w: u128)
    requires
        group_ok(g@),
    ensures
        final(out)@ == old(out)@ + group_text(g@, w as nat),
{
    let ghost gv = g@;
    let ghost start = out@;
    push_chars(out, &g.code);
    push_str(out, ": ");
    push_chars(out, &g.message);
    if g.count > 1 {
        push_str(out, " (x");
        push_dec(out, g.count);
        push_str(out, ")");
    }
    out.push('\n');
    assert(out@ =~= start + header(gv));
    let ghost after_header = out@;
    let ghost fe = |f: (Seq<char>, Seq<usize>)| file_errors(f);
    let ghost ul = |f: (Seq<char>, Seq<usize>)| unique_lines(f);
    let count = g.count;
    let fs = sort_files(g.locations);
    let ghost fv = fs.deep_view();
    let n: usize = if fs.len() < INLINE_LIMIT {
        fs.len()
    } else {
        INLINE_LIMIT
    };
    proof {
        lemma_sort_sum(gv.files, |a: (Seq<char>, Seq<usize>), b: (Seq<char>, Seq<usize>)| file_before(a, b), fe);
        lemma_sum_prefix(fv, n as int, fe);
        assert forall|i: int| 0 <= i < fv.take(n as int).len() implies ul(#[trigger] fv.take(n as int)[i]) <= fe(
            fv.take(n as int)[i],
        ) by {
            lemma_unique_le(fv.take(n as int)[i]);
        }
        lemma_sum_le(fv.take(n as int), ul, fe);
    }
    let shown = push_inline_lines(out, &fs, n, w);
    assert(out@ == after_header + concat(
        fv.take(inline_count(fv.len()) as int).map_values(|f: (Seq<char>, Seq<usize>)| inline_line(f, w as nat)),
    ));
    if fs.len() > INLINE_LIMIT {
        let ghost before_rest = out@;
        push_str(out, "  ... +");
        push_dec(out, fs.len() - INLINE_LIMIT);
        push_str(out, " files (");
        push_dec(out, count - shown);
        push_str(out, " occurrences): ");
        let entries = compact_entries(&fs);
        let sep = chars_of(", ");
        let joined = join_with(&entries, &sep);
        push_chars(out, &joined);
        out.push('\n');
        proof {
            assert(fv.take(n as int) =~= fv.take(INLINE_LIMIT as int));
            assert(out@ =~= before_rest + rest_line(gv, fv));
        }
    }
}

/// The text of each group, one after another.
fn render_groups(gs: Vec<ErrorGroup>) -> (r: Vec<char>)
    requires
        forall|k: int| 0 <= k < gs.len() ==> group_ok(#[trigger] group_views(gs@)[k]),
    ensures
        r@ == groups_text(group_views(gs@)),
{
    let ghost orig = group_views(gs@);
    let w = report_width_of(&gs);
    let ghost text = |g: GroupView| group_text(g, w as nat);
    let mut rest = gs;
    let mut out: Vec<char> = Vec::new();
    let ghost mut i: int = 0;
    assert(orig.take(0).map_values(text) =~= Seq::<Seq<char>>::empty());
    assert(group_views(rest@) =~= orig.skip(0));
    while rest.len() > 0
        invariant
            0 <= i <= orig.len(),
            i + rest.len() == orig.len(),
            group_views(rest@) == orig.skip(i),
            forall|k: int| 0 <= k < orig.len() ==> group_ok(#[trigger] orig[k]),
            text == (|g: GroupView| group_text(g, w as nat)),
            out@ == concat(orig.take(i).map_values(text)),
        decreases rest.len(),
    {
        let ghost rv = group_views(rest@);
        let g = rest.remove(0);
        assert(g@ == rv[0]);
        assert(rv[0] == orig[i]);
        assert(group_views(rest@) =~= rv.drop_first());
        push_group(&mut out, g, w);
        assert(orig.take(i + 1).map_values(text).drop_last() =~= orig.take(i).map_values(text));
        proof {
            i = i + 1;
        }
        assert(rv.drop_first() =~= orig.skip(i));
    }
    assert(orig.take(i) =~= orig);
    out
}

/// The report, or `input` when no error is recognised, from `input`'s lines
/// and what the patterns found on them.
fn report_of(input: &str, lines: &Vec<Vec<char>>, ms: &Vec<BuildLineMatches>) -> (out: String)
    requires
        ms.len() == lines.len(),
        lines.deep_view() == split_lines(input@),
    ensures
        out@ == build_output(input@, line_views(ms@)),
{
    let es = collect_errors(lines, ms);
    if es.len() == 0 {
        return input.to_owned();
    }
    let groups = group_all(&es);
    let sorted = sort_groups(groups);
    proof {
        lemma_sorted_groups_ok(error_views(es@));
        assert forall|k: int| 0 <= k < sorted.len() implies group_ok(#[trigger] group_views(sorted@)[k]) by {
            assert(group_views(sorted@)[k] == sorted_groups(group_errors(error_views(es@)))[k]);
        }
    }
    let text = render_groups(sorted);
    let trimmed = trim_end_chars(&text);
    string_of(&trimmed)
}

/// Groups build errors by code, given what the build-error patterns found on
/// each line of `input` (`matches[i]` for line `i`).
pub fn group_matched_errors(input: &str, matches: &Vec<BuildLineMatches>) -> (out: String)
    requires
        matches.len() == split_lines(input@).len(),
    ensures
        out@ == build_output(input@, line_views(matches@)),
{
    let chars = chars_of(input);
    let lines = split_lines_of(&chars);
    report_of(input, &lines, matches)
}

/// Groups repeated build errors by error code, keeping every file and line.
///
/// Understands tsc, ESLint, cargo, mypy and pylint output; text in which no
/// error is recognised comes back unchanged.
pub fn group_build_errors(input: &str) -> (out: String)
    ensures
        out@ == if build_patterns_accepted() {
            build_output(input@, lines_matched(split_lines(input@)))
        } else {
            input@
        },
{
    match BuildPatterns::build() {
        None => input.to_owned(),
        Some(p) => {
            let chars = chars_of(input);
            let lines = split_lines_of(&chars);
            let ms = p.match_lines(&lines);
            report_of(input, &lines, &ms)
        },
    }
}

// ---------------------------------------------------------------------------
// Laws: every location is shown
// ---------------------------------------------------------------------------

/// A group has a file, and every file of it a line number.
pub open spec fn group_shaped(g: GroupView) -> bool {
    &&& g.files.len() > 0
    &&& forall|f: int| 0 <= f < g.files.len() ==> (#[trigger] g.files[f]).1.len() > 0
}

/// Adding an error gives a group a file and keeps every file's numbers.
proof fn lemma_with_location_shaped(g: GroupView, file: Seq<char>, line: usize)
    requires
        forall|f: int| 0 <= f < g.files.len() ==> (#[trigger] g.files[f]).1.len() > 0,
    ensures
        group_shaped(with_location(g, file, line)),
{
    lemma_file_index_bounds(g.files, file, 0);
}

/// Every group made from errors has a file, and every file a line number.
proof fn lemma_groups_shaped(es: Seq<Located>)
    ensures
        forall|k: int| 0 <= k < group_errors(es).len() ==> group_shaped(#[trigger] group_errors(es)[k]),
    decreases es.len(),
{
    if es.len() > 0 {
        let gs = group_errors(es.drop_last());
        lemma_groups_shaped(es.drop_last());
        let e = es.last();
        let c = code_index(gs, e.code, 0);
        lemma_code_index_bounds(gs, e.code, 0);
        if c < gs.len() {
            lemma_with_location_shaped(gs[c], e.file, e.line);
        } else {
            lemma_with_location_shaped(empty_group(e.code, e.message), e.file, e.line);
        }
    }
}

/// Where error `k` of `es` lands: its group, and its file in that group,
/// which holds its line number.
proof fn lemma_error_grouped(es: Seq<Located>, k: int) -> (cf: (int, int))
    requires
        0 <= k < es.len(),
    ensures
        0 <= cf.0 < group_errors(es).len(),
        group_errors(es)[cf.0].code == es[k].code,
        0 <= cf.1 < group_errors(es)[cf.0].files.len(),
        group_errors(es)[cf.0].files[cf.1].0 == es[k].file,
        group_errors(es)[cf.0].files[cf.1].1.contains(es[k].line),
    decreases es.len(),
{
    let gs0 = group_errors(es.drop_last());
    let e = es.last();
    let c2 = code_index(gs0, e.code, 0);
    lemma_code_index_bounds(gs0, e.code, 0);
    let gs = group_errors(es);
    if k == es.len() - 1 {
        let g0 = if c2 < gs0.len() {
            gs0[c2]
        } else {
            empty_group(e.code, e.message)
        };
        let c = if c2 < gs0.len() {
            c2
        } else {
            gs0.len() as int
        };
        assert(gs[c] == with_location(g0, e.file, e.line));
        let f2 = file_index(g0.files, e.file, 0);
        lemma_file_index_bounds(g0.files, e.file, 0);
        if f2 < g0.files.len() {
            let ls = g0.files[f2].1.push(e.line);
            assert(ls[ls.len() - 1] == e.line);
            (c, f2)
        } else {
            assert(seq![e.line][0] == e.line);
            (c, g0.files.len() as int)
        }
    } else {
        let (c, f) = lemma_error_grouped(es.drop_last(), k);
        assert(es.drop_last()[k] == es[k]);
        if c == c2 && c2 < gs0.len() {
            let g0 = gs0[c];
            let f2 = file_index(g0.files, e.file, 0);
            lemma_file_index_bounds(g0.files, e.file, 0);
            if f2 == f {
                let old_ls = g0.files[f].1;
                let ls = old_ls.push(e.line);
                let i = choose|i: int| 0 <= i < old_ls.len() && old_ls[i] == es[k].line;
                assert(ls[i] == es[k].line);
            }
            (c, f)
        } else {
            (c, f)
        }
    }
}

/// Sorting keeps the length and every element.
proof fn lemma_sorted_files_len(files: Seq<(Seq<char>, Seq<usize>)>)
    ensures
        sorted_files(files).len() == files.len(),
{
    lemma_sort_len(files, |a: (Seq<char>, Seq<usize>), b: (Seq<char>, Seq<usize>)| file_before(a, b));
}

/// Distinct line numbers of a file that has some are not none.
proof fn lemma_unique_nonempty(ls: Seq<usize>)
    requires
        ls.len() > 0,
    ensures
        sorted_unique(ls).len() > 0,
{
    let before = |a: usize, b: usize| num_before(a, b);
    lemma_sort_len(ls, before);
    lemma_dedup_keeps(insertion_sort(ls, before), 0);
}

/// The mark of a line number stands in the marks of a file that has it.
proof fn lemma_mark_in_join(ls: Seq<usize>, n: usize, sep: Seq<char>)
    requires
        ls.contains(n),
    ensures
        contains(join(line_marks(sorted_unique(ls)), sep), seq![':'] + dec(n as nat)),
{
    let before = |a: usize, b: usize| num_before(a, b);
    let i = choose|i: int| 0 <= i < ls.len() && ls[i] == n;
    lemma_sort_keeps(ls, before, i);
    let sorted = insertion_sort(ls, before);
    let j = choose|j: int| 0 <= j < sorted.len() && sorted[j] == n;
    lemma_dedup_keeps(sorted, j);
    let su = sorted_unique(ls);
    let m = choose|m: int| 0 <= m < su.len() && su[m] == n;
    lemma_join_contains(line_marks(su), sep, m);
}

/// The marks of a file end in a digit.
proof fn lemma_marks_end(ls: Seq<usize>, sep: Seq<char>)
    requires
        ls.len() > 0,
    ensures
        join(line_marks(sorted_unique(ls)), sep).len() > 0,
        !is_space(join(line_marks(sorted_unique(ls)), sep).last()),
{
    lemma_unique_nonempty(ls);
    let su = sorted_unique(ls);
    let marks = line_marks(su);
    let last = su[su.len() - 1];
    lemma_dec_last(last as nat);
    assert(marks.last() == seq![':'] + dec(last as nat));
    lemma_join_last(marks, sep);
}

/// The text of a group ends with a line break after a character that is no
/// space.
proof fn lemma_group_text_end(g: GroupView, w: nat)
    requires
        group_shaped(g),
    ensures
        group_text(g, w).len() >= 2,
        group_text(g, w).last() == '\n',
        !is_space(group_text(g, w)[group_text(g, w).len() - 2]),
{
    let fs = sorted_files(g.files);
    let n = inline_count(fs.len());
    let line_of = |f: (Seq<char>, Seq<usize>)| inline_line(f, w);
    let il = fs.take(n as int).map_values(line_of);
    lemma_sorted_files_len(g.files);
    let t = group_text(g, w);
    if fs.len() > INLINE_LIMIT {
        let entries = fs.skip(INLINE_LIMIT as int).map_values(|f: (Seq<char>, Seq<usize>)| compact_entry(f));
        let last = entries.last();
        assert(last.last() == ')');
        lemma_join_last(entries, ", "@);
        let j = join(entries, ", "@);
        let r = rest_line(g, fs);
        assert(r == ("  ... +"@ + dec((fs.len() - INLINE_LIMIT) as nat) + " files ("@ + dec(
            (g.count - sum_of(fs.take(INLINE_LIMIT as int), |f: (Seq<char>, Seq<usize>)| unique_lines(f))) as nat,
        ) + " occurrences): "@) + j + seq!['\n']);
        assert(t == (header(g) + concat(il)) + r);
        assert(t.last() == '\n');
        assert(t[t.len() - 2] == j.last());
        assert(!is_space(')'));
    } else {
        let last_f = fs[n - 1];
        lemma_sort_elements(g.files, |a: (Seq<char>, Seq<usize>), b: (Seq<char>, Seq<usize>)| file_before(a, b), n - 1);
        let fi = choose|fi: int| 0 <= fi < g.files.len() && g.files[fi] == last_f;
        assert(g.files[fi].1.len() > 0);
        lemma_marks_end(last_f.1, ", "@);
        let j = join(line_marks(sorted_unique(last_f.1)), ", "@);
        let l = inline_line(last_f, w);
        assert(l == ("  "@ + padded(last_f.0, w) + "  "@) + j + seq!['\n']);
        assert(il.last() == l);
        assert(concat(il) == concat(il.drop_last()) + l);
        assert(t == header(g) + concat(il) + seq![]);
        assert(t =~= (header(g) + concat(il.drop_last())) + l);
        assert(t.last() == '\n');
        assert(t[t.len() - 2] == j.last());
    }
}

/// The text of a group shows its code, and the file and the line number of
/// each of its errors.
proof fn lemma_group_text_shows(g: GroupView, w: nat, f: int, n: usize)
    requires
        group_shaped(g),
        0 <= f < g.files.len(),
        g.files[f].1.contains(n),
    ensures
        contains_inside(group_text(g, w), seq![':'] + dec(n as nat)),
        contains_inside(group_text(g, w), g.files[f].0),
        contains_inside(group_text(g, w), g.code),
{
    let fs = sorted_files(g.files);
    let cnt = inline_count(fs.len());
    let line_of = |x: (Seq<char>, Seq<usize>)| inline_line(x, w);
    let il = fs.take(cnt as int).map_values(line_of);
    let file = g.files[f].0;
    let ls = g.files[f].1;
    let mark = seq![':'] + dec(n as nat);
    lemma_sorted_files_len(g.files);
    lemma_sort_keeps(g.files, |a: (Seq<char>, Seq<usize>), b: (Seq<char>, Seq<usize>)| file_before(a, b), f);
    let p = choose|p: int| 0 <= p < fs.len() && fs[p] == g.files[f];
    let rest = if fs.len() > INLINE_LIMIT {
        rest_line(g, fs)
    } else {
        seq![]
    };
    let t = group_text(g, w);
    assert(t == header(g) + concat(il) + rest);
    // The code opens the header.
    let hrest = ": "@ + g.message + (if g.count > 1 {
        " (x"@ + dec(g.count) + ")"@
    } else {
        seq![]
    }) + seq!['\n'];
    assert(header(g) =~= seq![] + g.code + hrest);
    lemma_inside_of(seq![], g.code, hrest);
    lemma_inside_extend(header(g), g.code, seq![], concat(il) + rest);
    assert(seq![] + header(g) + (concat(il) + rest) =~= t);
    if p < cnt {
        let j = join(line_marks(sorted_unique(ls)), ", "@);
        lemma_mark_in_join(ls, n, ", "@);
        let l = inline_line(fs[p], w);
        assert(l == ("  "@ + padded(file, w) + "  "@) + j + seq!['\n']);
        lemma_inside_of("  "@ + padded(file, w) + "  "@, j, seq!['\n']);
        lemma_inside_trans(l, j, mark);
        let after = spaces(
            if w > file.len() {
                (w - file.len()) as nat
            } else {
                0
            },
        ) + "  "@ + j + seq!['\n'];
        assert(l =~= "  "@ + file + after);
        lemma_inside_of("  "@, file, after);
        assert(il[p] == l);
        lemma_concat_inside(il, p, mark);
        lemma_concat_inside(il, p, file);
        lemma_inside_extend(concat(il), mark, header(g), rest);
        lemma_inside_extend(concat(il), file, header(g), rest);
    } else {
        let entries = fs.skip(INLINE_LIMIT as int).map_values(|x: (Seq<char>, Seq<usize>)| compact_entry(x));
        let je = join(entries, ", "@);
        let jm = join(line_marks(sorted_unique(ls)), ","@);
        lemma_mark_in_join(ls, n, ","@);
        let ce = compact_entry(fs[p]);
        assert(entries[p - INLINE_LIMIT] == ce);
        assert(ce == (file + seq!['(']) + jm + seq![')']);
        lemma_inside_of(file + seq!['('], jm, seq![')']);
        lemma_inside_trans(ce, jm, mark);
        assert(ce =~= seq![] + file + (seq!['('] + jm + seq![')']));
        lemma_inside_of(seq![], file, seq!['('] + jm + seq![')']);
        lemma_join_contains(entries, ", "@, p - INLINE_LIMIT);
        let prefix = "  ... +"@ + dec((fs.len() - INLINE_LIMIT) as nat) + " files ("@ + dec(
            (g.count - sum_of(fs.take(INLINE_LIMIT as int), |x: (Seq<char>, Seq<usize>)| unique_lines(x))) as nat,
        ) + " occurrences): "@;
        assert(rest == prefix + je + seq!['\n']);
        lemma_inside_of(prefix, je, seq!['\n']);
        lemma_inside_trans(rest, je, ce);
        crate::text::lemma_inside_contains(ce, mark);
        crate::text::lemma_inside_contains(ce, file);
        lemma_inside_trans(rest, ce, mark);
        lemma_inside_trans(rest, ce, file);
        lemma_inside_extend(rest, mark, header(g) + concat(il), seq![]);
        lemma_inside_extend(rest, file, header(g) + concat(il), seq![]);
        assert(header(g) + concat(il) + rest + seq![] =~= t);
    }
}

/// Every recognised error keeps its line number (as `:N`), its file and its
/// code in the report.
pub proof fn law_report_shows_every_error(es: Seq<Located>, k: int)
    requires
        0 <= k < es.len(),
    ensures
        contains(report(es), seq![':'] + dec(es[k].line as nat)),
        contains(report(es), es[k].file),
        contains(report(es), es[k].code),
{
    let gs = group_errors(es);
    let before = |a: GroupView, b: GroupView| group_before(a, b);
    let (c, f) = lemma_error_grouped(es, k);
    lemma_groups_shaped(es);
    assert(group_shaped(gs[c]));
    lemma_sort_keeps(gs, before, c);
    lemma_sort_len(gs, before);
    let sg = sorted_groups(gs);
    let p = choose|p: int| 0 <= p < sg.len() && sg[p] == gs[c];
    let mark = seq![':'] + dec(es[k].line as nat);
    let w = report_width(sg);
    lemma_group_text_shows(gs[c], w, f, es[k].line);
    let texts = sg.map_values(|g: GroupView| group_text(g, w));
    assert(texts[p] == group_text(gs[c], w));
    lemma_concat_inside(texts, p, mark);
    lemma_concat_inside(texts, p, es[k].file);
    lemma_concat_inside(texts, p, es[k].code);
    let last = sg.len() - 1;
    lemma_sort_elements(gs, before, last);
    let q = choose|q: int| 0 <= q < gs.len() && gs[q] == sg[last];
    assert(group_shaped(gs[q]));
    lemma_group_text_end(sg[last], w);
    let whole = concat(texts);
    assert(whole == concat(texts.drop_last()) + texts.last());
    assert(texts.last() == group_text(sg[last], w));
    assert(whole.last() == '\n');
    assert(whole[whole.len() - 2] == texts.last()[texts.last().len() - 2]);
    lemma_trim_end_keeps(whole, mark);
    lemma_trim_end_keeps(whole, es[k].file);
    lemma_trim_end_keeps(whole, es[k].code);
}

/// A file's distinct line numbers are no more than its errors.
proof fn lemma_distinct_le(ns: Seq<usize>)
    ensures
        sorted_unique(ns).len() <= ns.len(),
{
    let before = |a: usize, b: usize| crate::order::num_before(a, b);
    lemma_sort_len(ns, before);
    lemma_dedup_len(insertion_sort(ns, before));
}

/// Line numbers without repeats are all shown.
proof fn lemma_distinct_all_shown(ns: Seq<usize>)
    requires
        ns.no_duplicates(),
    ensures
        sorted_unique(ns).len() == ns.len(),
{
    let u = sorted_unique(ns);
    crate::order::law_line_numbers_ascending(ns);
    assert forall|i: int, j: int| 0 <= i < u.len() && 0 <= j < u.len() && i != j implies u[i] != u[j] by {
        if i < j {
            assert(u[i] < u[j]);
        } else {
            assert(u[j] < u[i]);
        }
    }
    assert(u.no_duplicates());
    assert(u.to_set() =~= ns.to_set());
    u.unique_seq_to_set();
    ns.unique_seq_to_set();
}

/// Law: a group of more than `INLINE_LIMIT` files ends with its summary
/// line: the number of files beyond the listed ones, then as occurrences
/// the group's count less the line numbers shown on the listed files' lines
/// (each file's distinct line numbers), then those files in compact form.
/// With no line number repeated in a listed file, the occurrences are the
/// errors of the files in the compact form.
pub proof fn law_summary_counts_the_rest(g: GroupView, w: nat)
    requires
        group_ok(g),
        sorted_files(g.files).len() > INLINE_LIMIT,
    ensures
        ({
            let fs = sorted_files(g.files);
            let listed = sum_of(
                fs.take(INLINE_LIMIT as int),
                |f: (Seq<char>, Seq<usize>)| sorted_unique(f.1).len(),
            );
            let summary = "  ... +"@ + dec((fs.len() - INLINE_LIMIT) as nat) + " files ("@ + dec(
                (g.count - listed) as nat,
            ) + " occurrences): "@ + join(
                fs.skip(INLINE_LIMIT as int).map_values(|f: (Seq<char>, Seq<usize>)| compact_entry(f)),
                ", "@,
            ) + seq!['\n'];
            &&& listed <= g.count
            &&& group_text(g, w).len() >= summary.len()
            &&& group_text(g, w).skip(group_text(g, w).len() - summary.len()) == summary
            &&& (forall|q: int| 0 <= q < INLINE_LIMIT ==> (#[trigger] fs[q]).1.no_duplicates()) ==> g.count
                - listed == sum_of(fs.skip(INLINE_LIMIT as int), |f: (Seq<char>, Seq<usize>)| file_errors(f))
        }),
{
    let fs = sorted_files(g.files);
    let fe = |f: (Seq<char>, Seq<usize>)| file_errors(f);
    let du = |f: (Seq<char>, Seq<usize>)| sorted_unique(f.1).len();
    assert((|f: (Seq<char>, Seq<usize>)| unique_lines(f)) =~= du);
    let head = fs.take(INLINE_LIMIT as int);
    lemma_sort_sum(g.files, |a: (Seq<char>, Seq<usize>), b: (Seq<char>, Seq<usize>)| file_before(a, b), fe);
    lemma_sum_prefix(fs, INLINE_LIMIT as int, fe);
    assert forall|i: int| 0 <= i < head.len() implies du(#[trigger] head[i]) <= fe(head[i]) by {
        lemma_distinct_le(head[i].1);
    }
    lemma_sum_le(head, du, fe);
    let t = group_text(g, w);
    let r = rest_line(g, fs);
    let cnt = inline_count(fs.len());
    let il = fs.take(cnt as int).map_values(|f: (Seq<char>, Seq<usize>)| inline_line(f, w));
    assert(t == (header(g) + concat(il)) + r);
    assert(t.skip(t.len() - r.len()) =~= r);
    if forall|q: int| 0 <= q < INLINE_LIMIT ==> (#[trigger] fs[q]).1.no_duplicates() {
        assert forall|i: int| 0 <= i < head.len() implies du(#[trigger] head[i]) == fe(head[i]) by {
            assert(head[i] == fs[i]);
            lemma_distinct_all_shown(head[i].1);
        }
        lemma_sum_le(head, fe, du);
        crate::order::lemma_sum_concat(head, fs.skip(INLINE_LIMIT as int), fe);
        assert(head + fs.skip(INLINE_LIMIT as int) =~= fs);
    }
}

/// Law: each recognised error stands in the block of its code. The block
/// begins with the code's header; the error's file is one of the block's
/// files, with the error's line number among its own; among the first
/// `INLINE_LIMIT` files of the block it has a line of its own that shows
/// `:N`, and beyond them it stands with `:N` in the block's summary line.
pub proof fn law_location_in_its_block(es: Seq<Located>, k: int)
    requires
        0 <= k < es.len(),
    ensures
        ({
            let sg = sorted_groups(group_errors(es));
            let w = report_width(sg);
            exists|p: int, q: int|
                #![trigger sg[p], sorted_files(sg[p].files)[q]]
                0 <= p < sg.len() && 0 <= q < sorted_files(sg[p].files).len() && {
                    let g = sg[p];
                    let fs = sorted_files(g.files);
                    let mark = seq![':'] + dec(es[k].line as nat);
                    &&& g.code == es[k].code
                    &&& starts_with(group_text(g, w), header(g))
                    &&& fs[q].0 == es[k].file
                    &&& fs[q].1.contains(es[k].line)
                    &&& q < INLINE_LIMIT ==> contains_inside(group_text(g, w), file_line(fs[q], w)) && contains(
                        file_line(fs[q], w),
                        mark,
                    )
                    &&& q >= INLINE_LIMIT ==> contains_inside(rest_line(g, fs), compact_entry(fs[q]))
                        && contains_inside(group_text(g, w), compact_entry(fs[q])) && contains(
                        compact_entry(fs[q]),
                        mark,
                    )
                }
        }),
{
    let gs = group_errors(es);
    let before = |a: GroupView, b: GroupView| group_before(a, b);
    let (c, f) = lemma_error_grouped(es, k);
    lemma_sort_keeps(gs, before, c);
    let sg = sorted_groups(gs);
    let w = report_width(sg);
    let p = choose|p: int| 0 <= p < sg.len() && sg[p] == gs[c];
    let g = sg[p];
    let fb = |a: (Seq<char>, Seq<usize>), b: (Seq<char>, Seq<usize>)| file_before(a, b);
    lemma_sort_keeps(g.files, fb, f);
    lemma_sorted_files_len(g.files);
    let fs = sorted_files(g.files);
    let q = choose|q: int| 0 <= q < fs.len() && fs[q] == g.files[f];
    let mark = seq![':'] + dec(es[k].line as nat);
    let cnt = inline_count(fs.len());
    let il = fs.take(cnt as int).map_values(|x: (Seq<char>, Seq<usize>)| inline_line(x, w));
    let rest = if fs.len() > INLINE_LIMIT {
        rest_line(g, fs)
    } else {
        seq![]
    };
    let t = group_text(g, w);
    assert(t == header(g) + concat(il) + rest);
    assert(t.subrange(0, header(g).len() as int) =~= header(g));
    let ls = fs[q].1;
    if q < INLINE_LIMIT {
        let body = file_line(fs[q], w);
        assert(il[q] == inline_line(fs[q], w));
        assert(inline_line(fs[q], w) =~= seq![] + body + seq!['\n']);
        lemma_inside_of(seq![], body, seq!['\n']);
        lemma_concat_inside(il, q, body);
        lemma_inside_extend(concat(il), body, header(g), rest);
        lemma_mark_in_join(ls, es[k].line, ", "@);
        let j = join(line_marks(sorted_unique(ls)), ", "@);
        crate::text::lemma_contains_extend(j, mark, "  "@ + padded(fs[q].0, w) + "  "@, seq![]);
        assert(("  "@ + padded(fs[q].0, w) + "  "@) + j + seq![] =~= body);
    } else {
        let entries = fs.skip(INLINE_LIMIT as int).map_values(|x: (Seq<char>, Seq<usize>)| compact_entry(x));
        let je = join(entries, ", "@);
        let ce = compact_entry(fs[q]);
        assert(entries[q - INLINE_LIMIT] == ce);
        lemma_join_contains(entries, ", "@, q - INLINE_LIMIT);
        let prefix = "  ... +"@ + dec((fs.len() - INLINE_LIMIT) as nat) + " files ("@ + dec(
            (g.count - sum_of(fs.take(INLINE_LIMIT as int), |x: (Seq<char>, Seq<usize>)| unique_lines(x))) as nat,
        ) + " occurrences): "@;
        assert(rest == prefix + je + seq!['\n']);
        lemma_inside_of(prefix, je, seq!['\n']);
        lemma_inside_trans(rest, je, ce);
        lemma_inside_extend(rest, ce, header(g) + concat(il), seq![]);
        assert(header(g) + concat(il) + rest + seq![] =~= t);
        lemma_mark_in_join(ls, es[k].line, ","@);
        let jm = join(line_marks(sorted_unique(ls)), ","@);
        crate::text::lemma_contains_extend(jm, mark, fs[q].0 + seq!['('], seq![')']);
    }
}

/// Law: every error recognised in the input keeps its line number (as
/// `:N`), its file and its code in the output; no location is dropped.
pub proof fn law_every_location_kept(input: Seq<char>, ms: Seq<BuildLineView>, k: int)
    requires
        0 <= k < recognised(ms, split_lines(input)).len(),
    ensures
        ({
            let e = recognised(ms, split_lines(input))[k];
            &&& contains(build_output(input, ms), seq![':'] + dec(e.line as nat))
            &&& contains(build_output(input, ms), e.file)
            &&& contains(build_output(input, ms), e.code)
        }),
{
    law_report_shows_every_error(recognised(ms, split_lines(input)), k);
}

/// Law: output in which no build error is recognised comes back unchanged.
pub proof fn law_unrecognised_unchanged(input: Seq<char>, ms: Seq<BuildLineView>)
    requires
        recognised(ms, split_lines(input)).len() == 0,
    ensures
        build_output(input, ms) == input,
{
}

// ---------------------------------------------------------------------------
// Laws: order and counts
// ---------------------------------------------------------------------------

/// The order of groups is transitive and asymmetric.
proof fn lemma_group_order()
    ensures
        forall|a: GroupView, b: GroupView, c: GroupView|
            #[trigger] group_before(a, b) && #[trigger] group_before(b, c) ==> group_before(a, c),
        forall|a: GroupView, b: GroupView| #[trigger] group_before(a, b) ==> !group_before(b, a),
{
    assert forall|a: GroupView, b: GroupView, c: GroupView|
        #[trigger] group_before(a, b) && #[trigger] group_before(b, c) implies group_before(a, c) by {
        if a.count == b.count && b.count == c.count {
            lemma_lex_lt_transitive(a.code, b.code, c.code);
        }
    }
    assert forall|a: GroupView, b: GroupView| #[trigger] group_before(a, b) implies !group_before(b, a) by {
        if a.count == b.count {
            lemma_lex_lt_asymmetric(a.code, b.code);
        }
    }
}

/// The order of files is transitive and asymmetric.
proof fn lemma_file_order()
    ensures
        forall|a: (Seq<char>, Seq<usize>), b: (Seq<char>, Seq<usize>), c: (Seq<char>, Seq<usize>)|
            #[trigger] file_before(a, b) && #[trigger] file_before(b, c) ==> file_before(a, c),
        forall|a: (Seq<char>, Seq<usize>), b: (Seq<char>, Seq<usize>)|
            #[trigger] file_before(a, b) ==> !file_before(b, a),
{
    assert forall|a: (Seq<char>, Seq<usize>), b: (Seq<char>, Seq<usize>), c: (Seq<char>, Seq<usize>)|
        #[trigger] file_before(a, b) && #[trigger] file_before(b, c) implies file_before(a, c) by {
        if a.1.len() == b.1.len() && b.1.len() == c.1.len() {
            lemma_lex_lt_transitive(a.0, b.0, c.0);
        }
    }
    assert forall|a: (Seq<char>, Seq<usize>), b: (Seq<char>, Seq<usize>)|
        #[trigger] file_before(a, b) implies !file_before(b, a) by {
        if a.1.len() == b.1.len() {
            lemma_lex_lt_asymmetric(a.0, b.0);
        }
    }
}

/// Law: groups are shown with the most errors first, and groups with equal
/// counts in the order of their codes.
pub proof fn law_groups_most_errors_first(gs: Seq<GroupView>, i: int, j: int)
    requires
        0 <= i < j < sorted_groups(gs).len(),
    ensures
        sorted_groups(gs)[i].count >= sorted_groups(gs)[j].count,
        sorted_groups(gs)[i].count == sorted_groups(gs)[j].count ==> !lex_lt(
            sorted_groups(gs)[j].code,
            sorted_groups(gs)[i].code,
        ),
{
    lemma_group_order();
    lemma_sort_sorted(gs, |a: GroupView, b: GroupView| group_before(a, b));
    let sg = sorted_groups(gs);
    assert(!group_before(sg[j], sg[i]));
}

/// Law: within a group, files are listed with the most errors first, and
/// files with equal counts by name.
pub proof fn law_files_most_errors_first(files: Seq<(Seq<char>, Seq<usize>)>, i: int, j: int)
    requires
        0 <= i < j < sorted_files(files).len(),
    ensures
        sorted_files(files)[i].1.len() >= sorted_files(files)[j].1.len(),
        sorted_files(files)[i].1.len() == sorted_files(files)[j].1.len() ==> !lex_lt(
            sorted_files(files)[j].0,
            sorted_files(files)[i].0,
        ),
{
    lemma_file_order();
    lemma_sort_sorted(files, |a: (Seq<char>, Seq<usize>), b: (Seq<char>, Seq<usize>)| file_before(a, b));
    let sf = sorted_files(files);
    assert(!file_before(sf[j], sf[i]));
}

/// Law: the counts of the groups add up to the number of recognised errors;
/// each error is counted once.
pub proof fn law_counts_add_up(es: Seq<Located>)
    ensures
        sum_of(group_errors(es), |g: GroupView| g.count) == es.len(),
    decreases es.len(),
{
    let cnt = |g: GroupView| g.count;
    if es.len() > 0 {
        law_counts_add_up(es.drop_last());
        let gs = group_errors(es.drop_last());
        let e = es.last();
        let c = code_index(gs, e.code, 0);
        lemma_code_index_bounds(gs, e.code, 0);
        if c < gs.len() {
            lemma_sum_update(gs, c, with_location(gs[c], e.file, e.line), cnt);
        } else {
            let g = with_location(empty_group(e.code, e.message), e.file, e.line);
            assert(gs.push(g).drop_last() =~= gs);
        }
    }
}

} // verus!
