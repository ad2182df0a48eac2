//! Compact wget output: the URL without its protocol, the saved file and
//! its size, or the reason of a failure.

use vstd::prelude::*;
use crate::text::{
    chars_of, concat, contains, contains_str, dec, occurs_at, occurs_at_index, push_chars,
    push_dec, push_dec_u64, push_str, same_chars, slice_chars, split_lines, split_lines_of, starts_with,
    string_of, trim, trim_chars, utf8_len, utf8_len_of,
};

verus! {

// ---------------------------------------------------------------------------
// Meaning
// ---------------------------------------------------------------------------

/// The first `n` characters of `s`, or all of it when it is shorter
/// (`chars().take(n)`).
pub open spec fn take_chars(s: Seq<char>, n: int) -> Seq<char> {
    if n <= s.len() {
        s.take(n)
    } else {
        s
    }
}

/// The texts of arguments.
pub open spec fn arg_views(args: Seq<String>) -> Seq<Seq<char>> {
    args.map_values(|a: String| a@)
}

/// The output file named by the arguments from `i` on: the argument after
/// `-O` or `--output-document`, or what follows `-O` in one argument.
pub open spec fn name_from_args(args: Seq<Seq<char>>, i: int) -> Option<Seq<char>>
    decreases args.len() - i,
{
    if i < 0 || i >= args.len() {
        None
    } else if (args[i] == "-O"@ || args[i] == "--output-document"@) && i + 1 < args.len() {
        Some(args[i + 1])
    } else if starts_with(args[i], "-O"@) {
        Some(args[i].skip("-O"@.len() as int))
    } else {
        name_from_args(args, i + 1)
    }
}

/// Reading `cs` from `i` on: where the last opening and the last closing
/// quote stand. `«` opens and `»` closes; `'` opens only while nothing is
/// open yet, and closes once something is.
pub open spec fn quote_bounds(cs: Seq<char>, i: int, start: Option<int>, end: Option<int>) -> (Option<int>, Option<int>)
    decreases cs.len() - i,
{
    if i < 0 || i >= cs.len() {
        (start, end)
    } else {
        let c = cs[i];
        let s2 = if c == '«' || (c == '\'' && start is None) {
            Some(i)
        } else {
            start
        };
        let e2 = if c == '»' || (c == '\'' && s2 is Some) {
            Some(i)
        } else {
            end
        };
        quote_bounds(cs, i + 1, s2, e2)
    }
}

/// The quoted file name of a line, if the quotes enclose something.
pub open spec fn quoted_name(line: Seq<char>) -> Option<Seq<char>> {
    let (s, e) = quote_bounds(line, 0, None, None);
    if s is Some && e is Some && e->0 > s->0 + 1 {
        Some(trim(line.subrange(s->0 + 1, e->0)))
    } else {
        None
    }
}

/// The line tells where wget saves (in French or in English).
pub open spec fn is_saving_line(line: Seq<char>) -> bool {
    contains(line, "Sauvegarde en"@) || contains(line, "Saving to"@)
}

/// The file name of the first saving line from `i` on that quotes one.
pub open spec fn name_from_lines(ls: Seq<Seq<char>>, i: int) -> Option<Seq<char>>
    decreases ls.len() - i,
{
    if i < 0 || i >= ls.len() {
        None
    } else if is_saving_line(ls[i]) && quoted_name(ls[i]) is Some {
        quoted_name(ls[i])
    } else {
        name_from_lines(ls, i + 1)
    }
}

/// The last index at or before `i` where `t` occurs in `s`, or -1.
pub open spec fn last_index(s: Seq<char>, t: Seq<char>, i: int) -> int
    decreases i + 1,
{
    if i < 0 {
        -1
    } else if occurs_at(s, t, i) {
        i
    } else {
        last_index(s, t, i - 1)
    }
}

/// What follows the last `t` in `s`; all of `s` without one (the first item
/// of `rsplit`).
pub open spec fn after_last(s: Seq<char>, t: Seq<char>) -> Seq<char> {
    let k = last_index(s, t, s.len() - t.len());
    if k >= 0 {
        s.skip(k + t.len())
    } else {
        s
    }
}

/// What comes before the first `c` in `s` from `i` on (the first item of
/// `split`).
pub open spec fn before_char(s: Seq<char>, c: char, i: int) -> Seq<char>
    decreases s.len() - i,
{
    if i < 0 || i >= s.len() {
        s
    } else if s[i] == c {
        s.take(i)
    } else {
        before_char(s, c, i + 1)
    }
}

/// The file name at the end of a URL's path, without query; `index.html`
/// when that has no `.`.
pub open spec fn url_file_name(url: Seq<char>) -> Seq<char> {
    let f = before_char(after_last(after_last(url, "://"@), "/"@), '?', 0);
    if f.len() == 0 || !f.contains('.') {
        "index.html"@
    } else {
        f
    }
}

/// The name of the downloaded file: from the arguments, else from wget's
/// messages, else from the URL.
pub open spec fn downloaded_name(stderr: Seq<char>, url: Seq<char>, args: Seq<Seq<char>>) -> Seq<char> {
    match name_from_args(args, 0) {
        Some(n) => n,
        None => match name_from_lines(split_lines(stderr), 0) {
            Some(n) => n,
            None => url_file_name(url),
        },
    }
}

// ---------------------------------------------------------------------------
// Code: the downloaded file's name
// ---------------------------------------------------------------------------

/// The output file named by the arguments.
fn name_in_args(args: &[String]) -> (r: Option<Vec<char>>)
    ensures
        r.deep_view() == name_from_args(arg_views(args@), 0),
{
    let ghost av = arg_views(args@);
    let short = chars_of("-O");
    let long = chars_of("--output-document");
    let mut i: usize = 0;
    while i < args.len()
        invariant
            0 <= i <= args.len(),
            av == arg_views(args@),
            short@ == "-O"@,
            long@ == "--output-document"@,
            name_from_args(av, 0) == name_from_args(av, i as int),
        decreases args.len() - i,
    {
        let a = chars_of(args[i].as_str());
        if (same_chars(&a, &short) || same_chars(&a, &long)) && i + 1 < args.len() {
            let next = chars_of(args[i + 1].as_str());
            assert(next.deep_view() =~= next@);
            return Some(next);
        }
        if occurs_at_index(&a, &short, 0) {
            let rest = slice_chars(&a, short.len(), a.len());
            assert(rest@ =~= a@.skip("-O"@.len() as int));
            assert(rest.deep_view() =~= rest@);
            return Some(rest);
        }
        i += 1;
    }
    None
}

/// The quoted file name of `line`, if the quotes enclose something.
fn quoted_name_in(line: &[char]) -> (r: Option<Vec<char>>)
    ensures
        r.deep_view() == quoted_name(line@),
{
    let ghost total = quote_bounds(line@, 0, None, None);
    let mut start: Option<usize> = None;
    let mut end: Option<usize> = None;
    let mut i: usize = 0;
    while i < line.len()
        invariant
            0 <= i <= line.len(),
            start matches Some(s) ==> s < i,
            end matches Some(e) ==> e < i,
            total == quote_bounds(
                line@,
                i as int,
                match start {
                    Some(s) => Some(s as int),
                    None => None,
                },
                match end {
                    Some(e) => Some(e as int),
                    None => None,
                },
            ),
        decreases line.len() - i,
    {
        let c = line[i];
        if c == '«' || (c == '\'' && start.is_none()) {
            start = Some(i);
        }
        if c == '»' || (c == '\'' && start.is_some()) {
            end = Some(i);
        }
        i += 1;
    }
    match (start, end) {
        (Some(s), Some(e)) => {
            if e > s + 1 {
                let inner = slice_chars(line, s + 1, e);
                let t = trim_chars(&inner);
                assert(t.deep_view() =~= t@);
                Some(t)
            } else {
                None
            }
        },
        _ => None,
    }
}

/// The file name of the first saving line that quotes one.
fn name_in_lines(lines: &Vec<Vec<char>>) -> (r: Option<Vec<char>>)
    ensures
        r.deep_view() == name_from_lines(lines.deep_view(), 0),
{
    let ghost lv = lines.deep_view();
    let mut i: usize = 0;
    while i < lines.len()
        invariant
            0 <= i <= lines.len(),
            lv == lines.deep_view(),
            name_from_lines(lv, 0) == name_from_lines(lv, i as int),
        decreases lines.len() - i,
    {
        let l = &lines[i];
        assert(l.deep_view() =~= l@);
        if contains_str(l, "Sauvegarde en") || contains_str(l, "Saving to") {
            let q = quoted_name_in(l);
            if q.is_some() {
                return q;
            }
        }
        i += 1;
    }
    None
}

/// What follows the last `t` in `s`, or all of `s`.
fn after_last_of(s: &[char], t: &str) -> (r: Vec<char>)
    ensures
        r@ == after_last(s@, t@),
{
    let tc = chars_of(t);
    if tc.len() > s.len() {
        assert(last_index(s@, t@, s@.len() - t@.len()) == -1);
        return slice_chars(s, 0, s.len());
    }
    let mut k: usize = s.len() - tc.len();
    loop
        invariant
            k <= s.len() - tc.len(),
            tc@ == t@,
            tc.len() <= s.len(),
            last_index(s@, t@, s@.len() - t@.len()) == last_index(s@, t@, k as int),
        decreases k,
    {
        if occurs_at_index(s, &tc, k) {
            return slice_chars(s, k + tc.len(), s.len());
        }
        if k == 0 {
            assert(last_index(s@, t@, -1) == -1);
            let r = slice_chars(s, 0, s.len());
            assert(r@ =~= s@);
            return r;
        }
        k -= 1;
    }
}

/// What comes before the first `c` in `s`.
fn before_char_of(s: &[char], c: char) -> (r: Vec<char>)
    ensures
        r@ == before_char(s@, c, 0),
{
    let mut i: usize = 0;
    while i < s.len()
        invariant
            0 <= i <= s.len(),
            before_char(s@, c, 0) == before_char(s@, c, i as int),
        decreases s.len() - i,
    {
        if s[i] == c {
            return slice_chars(s, 0, i);
        }
        i += 1;
    }
    let r = slice_chars(s, 0, s.len());
    assert(r@ =~= s@);
    r
}

/// `c` occurs in `s`.
fn holds_char(s: &[char], c: char) -> (r: bool)
    ensures
        r == s@.contains(c),
{
    let mut i: usize = 0;
    while i < s.len()
        invariant
            0 <= i <= s.len(),
            forall|k: int| 0 <= k < i ==> s@[k] != c,
        decreases s.len() - i,
    {
        if s[i] == c {
            return true;
        }
        i += 1;
    }
    false
}

/// The file name at the end of a URL's path.
fn url_file_name_of(url: &[char]) -> (r: Vec<char>)
    ensures
        r@ == url_file_name(url@),
{
    let host_path = after_last_of(url, "://");
    let last = after_last_of(&host_path, "/");
    let f = before_char_of(&last, '?');
    if f.len() == 0 || !holds_char(&f, '.') {
        chars_of("index.html")
    } else {
        f
    }
}

/// The name of the file that wget saved: the `-O` argument if there is one,
/// else the name in wget's "Saving to" (or French "Sauvegarde en") message,
/// else the last part of the URL's path (`index.html` when it has no `.`).
pub fn extract_filename_from_output(stderr: &str, url: &str, args: &[String]) -> (name: String)
    ensures
        name@ == downloaded_name(stderr@, url@, arg_views(args@)),
{
    match name_in_args(args) {
        Some(n) => {
            return string_of(&n);
        },
        None => {},
    }
    let sc = chars_of(stderr);
    let lines = split_lines_of(&sc);
    match name_in_lines(&lines) {
        Some(n) => {
            return string_of(&n);
        },
        None => {},
    }
    let uc = chars_of(url);
    let f = url_file_name_of(&uc);
    string_of(&f)
}

// ---------------------------------------------------------------------------
// Sizes
// ---------------------------------------------------------------------------

/// The spacing of the `f64` values near `b`: 1 below 2^53, doubling with
/// each bit above.
pub open spec fn f64_spacing(b: nat) -> nat
    decreases b,
{
    if b < 0x20_0000_0000_0000 {
        1
    } else {
        2 * f64_spacing(b / 2)
    }
}

/// `n / d` rounded to the nearest whole number, halves to even.
pub open spec fn div_round_even(n: nat, d: nat) -> nat {
    let q = n / d;
    let r = n % d;
    if 2 * r > d || (2 * r == d && q % 2 == 1) {
        q + 1
    } else {
        q
    }
}

/// `b as f64`: the nearest `f64` value, halves to even.
pub open spec fn as_f64(b: nat) -> nat {
    let u = f64_spacing(b);
    div_round_even(b, u) * u
}

/// `v / d` with one decimal, as `{:.1}` writes it (halves to even).
pub open spec fn one_decimal(v: nat, d: nat) -> Seq<char> {
    let t = div_round_even(v * 10, d);
    dec(t / 10) + "."@ + dec(t % 10)
}

/// `bytes` in human units: `?` for nothing, then B, KB, MB or GB.
pub open spec fn size_text(bytes: nat) -> Seq<char> {
    if bytes == 0 {
        "?"@
    } else if bytes < 1024 {
        dec(bytes) + "B"@
    } else if bytes < 1024 * 1024 {
        one_decimal(bytes, 1024) + "KB"@
    } else if bytes < 1024 * 1024 * 1024 {
        one_decimal(bytes, 1024 * 1024) + "MB"@
    } else {
        one_decimal(as_f64(bytes), 1024 * 1024 * 1024) + "GB"@
    }
}

/// `n / d` rounded to the nearest whole number, halves to even.
fn div_round_even_of(n: u128, d: u128) -> (r: u128)
    requires
        0 < d <= 0x4000_0000,
        n < 0x1_0000_0000_0000_0000_0000_0000_0000,
    ensures
        r as nat == div_round_even(n as nat, d as nat),
        r <= n / d + 1,
{
    let q = n / d;
    let r = n % d;
    if 2 * r > d || (2 * r == d && q % 2 == 1) {
        q + 1
    } else {
        q
    }
}

/// The spacing of the `f64` values near `b`.
fn f64_spacing_of(b: u64) -> (u: u128)
    ensures
        u as nat == f64_spacing(b as nat),
        1 <= u <= 0x1000,
{
    let mut x: u64 = b;
    let mut u: u128 = 1;
    while x >= 0x20_0000_0000_0000
        invariant
            f64_spacing(b as nat) == u * f64_spacing(x as nat),
            1 <= u,
            u * x <= b,
            u <= 0x1000,
            x >= 0x10_0000_0000_0000 || u == 1,
        decreases x,
    {
        assert(f64_spacing(x as nat) == 2 * f64_spacing((x / 2) as nat));
        assert(u * f64_spacing(x as nat) == (u * 2) * f64_spacing((x / 2) as nat)) by (nonlinear_arith)
            requires
                f64_spacing(x as nat) == 2 * f64_spacing((x / 2) as nat),
        ;
        assert(u * (x / 2) * 2 <= u * x) by (nonlinear_arith)
            requires
                u >= 1,
        ;
        proof {
            assert(u * 2 * (x / 2) <= b) by (nonlinear_arith)
                requires
                    u * (x / 2) * 2 <= u * x,
                    u * x <= b,
            ;
            assert(u * 2 <= 0x1000) by (nonlinear_arith)
                requires
                    u * x <= b,
                    b <= 0xffff_ffff_ffff_ffff,
                    x >= 0x20_0000_0000_0000,
            ;
        }
        x = x / 2;
        u = u * 2;
    }
    assert(f64_spacing(x as nat) == 1);
    assert(u * f64_spacing(x as nat) == u) by (nonlinear_arith)
        requires
            f64_spacing(x as nat) == 1,
    ;
    u
}

/// `b as f64`, as a whole number.
fn as_f64_of(b: u64) -> (v: u128)
    ensures
        v as nat == as_f64(b as nat),
        v <= 0x2_0000_0000_0000_0000,
{
    let u = f64_spacing_of(b);
    let bb = b as u128;
    let q = div_round_even_of(bb, u);
    assert(q * u <= (bb / u + 1) * u) by (nonlinear_arith)
        requires
            q <= bb / u + 1,
            u >= 1,
    ;
    assert((bb / u + 1) * u <= bb + u) by (nonlinear_arith)
        requires
            u >= 1,
    ;
    q * u
}

/// `v / d` with one decimal.
fn push_one_decimal(out: &mut Vec<char>, v: u128, d: u128)
    requires
        1024 <= d <= 0x4000_0000,
        v <= 0x2_0000_0000_0000_0000,
    ensures
        final(out)@ == old(out)@ + one_decimal(v as nat, d as nat),
{
    let v10 = v * 10;
    let t = div_round_even_of(v10, d);
    assert(t <= v10 + 1) by (nonlinear_arith)
        requires
            t <= v10 / d + 1,
            d >= 1,
    ;
    assert(v10 / d <= v10 / 1024) by (nonlinear_arith)
        requires
            d >= 1024,
    ;
    push_dec_u64(out, (t / 10) as u64);
    push_str(out, ".");
    push_dec_u64(out, (t % 10) as u64);
}

/// A byte count in human units: `?` for 0, `100B`, `1.5KB`, `1.0MB`, `1.0GB`.
pub fn format_size(bytes: u64) -> (s: String)
    ensures
        s@ == size_text(bytes as nat),
{
    let mut out: Vec<char> = Vec::new();
    if bytes == 0 {
        push_str(&mut out, "?");
    } else if bytes < 1024 {
        push_dec(&mut out, bytes as usize);
        push_str(&mut out, "B");
    } else if bytes < 1024 * 1024 {
        push_one_decimal(&mut out, bytes as u128, 1024);
        push_str(&mut out, "KB");
    } else if bytes < 1024 * 1024 * 1024 {
        push_one_decimal(&mut out, bytes as u128, 1024 * 1024);
        push_str(&mut out, "MB");
    } else {
        let v = as_f64_of(bytes);
        push_one_decimal(&mut out, v, 1024 * 1024 * 1024);
        push_str(&mut out, "GB");
    }
    string_of(&out)
}

// ---------------------------------------------------------------------------
// URLs, errors, lines
// ---------------------------------------------------------------------------

/// `url` without a leading `https://` or `http://`.
pub open spec fn without_protocol(url: Seq<char>) -> Seq<char> {
    if starts_with(url, "https://"@) {
        url.skip("https://"@.len() as int)
    } else if starts_with(url, "http://"@) {
        url.skip("http://"@.len() as int)
    } else {
        url
    }
}

/// A URL as shown: without protocol; above 50 characters, its first 25 and
/// last 20 characters around `...`.
pub open spec fn compact_url_text(url: Seq<char>) -> Seq<char> {
    let w = without_protocol(url);
    if w.len() <= 50 {
        w
    } else {
        w.take(25) + "..."@ + w.skip(w.len() - 20)
    }
}

/// The first line from `i` on that, trimmed, is not empty and does not start
/// with `--`; trimmed.
pub open spec fn first_meaningful(ls: Seq<Seq<char>>, i: int) -> Option<Seq<char>>
    decreases ls.len() - i,
{
    if i < 0 || i >= ls.len() {
        None
    } else if trim(ls[i]).len() > 0 && !starts_with(trim(ls[i]), "--"@) {
        Some(trim(ls[i]))
    } else {
        first_meaningful(ls, i + 1)
    }
}

/// The reason of a failed download: a known HTTP status or network failure
/// found in the output, else the first meaningful line of `stderr` (cut to
/// 60 characters when longer than 60 bytes), else `Unknown error`.
pub open spec fn error_text(stderr: Seq<char>, stdout: Seq<char>) -> Seq<char> {
    let c = stderr + "\n"@ + stdout;
    if contains(c, "404"@) {
        "404 Not Found"@
    } else if contains(c, "403"@) {
        "403 Forbidden"@
    } else if contains(c, "401"@) {
        "401 Unauthorized"@
    } else if contains(c, "500"@) {
        "500 Server Error"@
    } else if contains(c, "Connection refused"@) {
        "Connection refused"@
    } else if contains(c, "unable to resolve"@) || contains(c, "Name or service not known"@) {
        "DNS lookup failed"@
    } else if contains(c, "timed out"@) {
        "Connection timed out"@
    } else if contains(c, "SSL"@) || contains(c, "certificate"@) {
        "SSL/TLS error"@
    } else {
        match first_meaningful(split_lines(stderr), 0) {
            Some(t) => if utf8_len(t) > 60 {
                take_chars(t, 60) + "..."@
            } else {
                t
            },
            None => "Unknown error"@,
        }
    }
}

/// `line` if it takes at most `max` bytes; else its first `max - 3`
/// characters (none when `max < 3`) and `...`.
pub open spec fn truncated(line: Seq<char>, max: nat) -> Seq<char> {
    if utf8_len(line) <= max {
        line
    } else {
        take_chars(line, if max >= 3 { max - 3 } else { 0 }) + "..."@
    }
}

/// The first `n` characters of `s`, or all of it.
fn take_chars_of(s: &[char], n: usize) -> (r: Vec<char>)
    ensures
        r@ == take_chars(s@, n as int),
{
    if n <= s.len() {
        slice_chars(s, 0, n)
    } else {
        let r = slice_chars(s, 0, s.len());
        assert(r@ =~= s@);
        r
    }
}

/// `url` without a leading `https://` or `http://`.
fn without_protocol_of(url: &[char]) -> (r: Vec<char>)
    ensures
        r@ == without_protocol(url@),
{
    let https = chars_of("https://");
    let http = chars_of("http://");
    if occurs_at_index(url, &https, 0) {
        slice_chars(url, https.len(), url.len())
    } else if occurs_at_index(url, &http, 0) {
        slice_chars(url, http.len(), url.len())
    } else {
        let r = slice_chars(url, 0, url.len());
        assert(r@ =~= url@);
        r
    }
}

/// Appends a URL as shown.
fn push_compact_url(out: &mut Vec<char>, url: &str)
    ensures
        final(out)@ == old(out)@ + compact_url_text(url@),
{
    let uc = chars_of(url);
    let w = without_protocol_of(&uc);
    if w.len() <= 50 {
        push_chars(out, &w);
    } else {
        let head = slice_chars(&w, 0, 25);
        let tail = slice_chars(&w, w.len() - 20, w.len());
        push_chars(out, &head);
        push_str(out, "...");
        push_chars(out, &tail);
        assert(tail@ =~= w@.skip(w@.len() - 20));
    }
}

/// A URL as shown: without protocol, and shortened around `...` when longer
/// than 50 characters.
pub fn compact_url(url: &str) -> (s: String)
    ensures
        s@ == compact_url_text(url@),
{
    let mut out: Vec<char> = Vec::new();
    push_compact_url(&mut out, url);
    string_of(&out)
}

/// The first meaningful line of `lines`, trimmed.
fn first_meaningful_of(lines: &Vec<Vec<char>>) -> (r: Option<Vec<char>>)
    ensures
        r.deep_view() == first_meaningful(lines.deep_view(), 0),
{
    let ghost lv = lines.deep_view();
    let dashes = chars_of("--");
    let mut i: usize = 0;
    while i < lines.len()
        invariant
            0 <= i <= lines.len(),
            lv == lines.deep_view(),
            dashes@ == "--"@,
            first_meaningful(lv, 0) == first_meaningful(lv, i as int),
        decreases lines.len() - i,
    {
        assert(lines@[i as int].deep_view() =~= lines@[i as int]@);
        let t = trim_chars(&lines[i]);
        if t.len() > 0 && !occurs_at_index(&t, &dashes, 0) {
            assert(t.deep_view() =~= t@);
            return Some(t);
        }
        i += 1;
    }
    None
}

/// The reason of a failed download, from wget's error and standard output.
pub fn parse_error(stderr: &str, stdout: &str) -> (s: String)
    ensures
        s@ == error_text(stderr@, stdout@),
{
    let mut c: Vec<char> = Vec::new();
    push_str(&mut c, stderr);
    push_str(&mut c, "\n");
    push_str(&mut c, stdout);
    assert(c@ =~= stderr@ + "\n"@ + stdout@);
    if contains_str(&c, "404") {
        return "404 Not Found".to_owned();
    }
    if contains_str(&c, "403") {
        return "403 Forbidden".to_owned();
    }
    if contains_str(&c, "401") {
        return "401 Unauthorized".to_owned();
    }
    if contains_str(&c, "500") {
        return "500 Server Error".to_owned();
    }
    if contains_str(&c, "Connection refused") {
        return "Connection refused".to_owned();
    }
    if contains_str(&c, "unable to resolve") || contains_str(&c, "Name or service not known") {
        return "DNS lookup failed".to_owned();
    }
    if contains_str(&c, "timed out") {
        return "Connection timed out".to_owned();
    }
    if contains_str(&c, "SSL") || contains_str(&c, "certificate") {
        return "SSL/TLS error".to_owned();
    }
    let sc = chars_of(stderr);
    let lines = split_lines_of(&sc);
    match first_meaningful_of(&lines) {
        Some(t) => {
            assert(t.deep_view() =~= t@);
            if utf8_len_of(&t) > 60 {
                let mut r = take_chars_of(&t, 60);
                push_str(&mut r, "...");
                string_of(&r)
            } else {
                string_of(&t)
            }
        },
        None => "Unknown error".to_owned(),
    }
}

/// `line` cut to `max` bytes with `...` when it is longer.
fn truncated_of(line: &[char], max: usize) -> (r: Vec<char>)
    ensures
        r@ == truncated(line@, max as nat),
{
    if utf8_len_of(line) <= max as u128 {
        let r = slice_chars(line, 0, line.len());
        assert(r@ =~= line@);
        r
    } else {
        let keep: usize = if max >= 3 {
            max - 3
        } else {
            0
        };
        let mut r = take_chars_of(line, keep);
        push_str(&mut r, "...");
        r
    }
}

/// `line` if it takes at most `max` bytes; else its first `max - 3`
/// characters and `...`.
pub fn truncate_line(line: &str, max: usize) -> (s: String)
    ensures
        s@ == truncated(line@, max as nat),
{
    let lc = chars_of(line);
    let r = truncated_of(&lc, max);
    string_of(&r)
}

// ---------------------------------------------------------------------------
// Messages
// ---------------------------------------------------------------------------

/// The line shown after a successful download.
pub open spec fn ok_message(url: Seq<char>, filename: Seq<char>, size: nat) -> Seq<char> {
    compact_url_text(url) + " ok | "@ + filename + " | "@ + size_text(size)
}

/// The line shown after a failed download.
pub open spec fn failed_message(url: Seq<char>, error: Seq<char>) -> Seq<char> {
    compact_url_text(url) + " FAILED: "@ + error
}

/// What is shown of a page fetched to standard output: a header, then all
/// its lines when there are at most 20, else the first 10 cut to 100 bytes
/// and how many lines follow.
pub open spec fn stdout_report(url: Seq<char>, content: Seq<char>, bytes: nat) -> Seq<char> {
    let lines = split_lines(content);
    let total = lines.len();
    if total > 20 {
        compact_url_text(url) + " ok | "@ + dec(total) + " lines | "@ + size_text(bytes) + "\n"@
            + "--- first 10 lines ---\n"@ + concat(
            lines.take(10).map_values(|l: Seq<char>| truncated(l, 100) + "\n"@),
        ) + "... +"@ + dec((total - 10) as nat) + " more lines"@
    } else {
        compact_url_text(url) + " ok | "@ + dec(total) + " lines\n"@ + concat(
            lines.map_values(|l: Seq<char>| l + "\n"@),
        )
    }
}

/// The line shown after a successful download: the URL, the file and its
/// size.
pub fn download_ok_message(url: &str, filename: &str, size: u64) -> (s: String)
    ensures
        s@ == ok_message(url@, filename@, size as nat),
{
    let mut out: Vec<char> = Vec::new();
    push_compact_url(&mut out, url);
    push_str(&mut out, " ok | ");
    push_str(&mut out, filename);
    push_str(&mut out, " | ");
    let size_s = format_size(size);
    push_str(&mut out, size_s.as_str());
    string_of(&out)
}

/// The line shown after a failed download: the URL and the reason.
pub fn download_failed_message(url: &str, error: &str) -> (s: String)
    ensures
        s@ == failed_message(url@, error@),
{
    let mut out: Vec<char> = Vec::new();
    push_compact_url(&mut out, url);
    push_str(&mut out, " FAILED: ");
    push_str(&mut out, error);
    string_of(&out)
}

/// What is shown of a page fetched to standard output, `bytes` long.
pub fn stdout_summary(url: &str, content: &str, bytes: u64) -> (s: String)
    ensures
        s@ == stdout_report(url@, content@, bytes as nat),
{
    let cc = chars_of(content);
    let lines = split_lines_of(&cc);
    let ghost lv = lines.deep_view();
    let total = lines.len();
    let mut out: Vec<char> = Vec::new();
    push_compact_url(&mut out, url);
    push_str(&mut out, " ok | ");
    push_dec(&mut out, total);
    if total > 20 {
        push_str(&mut out, " lines | ");
        let size_s = format_size(bytes);
        push_str(&mut out, size_s.as_str());
        push_str(&mut out, "\n");
        push_str(&mut out, "--- first 10 lines ---\n");
        let ghost start = out@;
        let ghost piece = |l: Seq<char>| truncated(l, 100) + "\n"@;
        let mut i: usize = 0;
        assert(lv.take(0).map_values(piece) =~= Seq::<Seq<char>>::empty());
        while i < 10
            invariant
                0 <= i <= 10 < total == lines.len(),
                lv == lines.deep_view(),
                piece == (|l: Seq<char>| truncated(l, 100) + "\n"@),
                out@ == start + concat(lv.take(i as int).map_values(piece)),
            decreases 10 - i,
        {
            assert(lines@[i as int].deep_view() =~= lines@[i as int]@);
            let t = truncated_of(&lines[i], 100);
            push_chars(&mut out, &t);
            push_str(&mut out, "\n");
            assert(lv.take(i + 1).map_values(piece).drop_last() =~= lv.take(i as int).map_values(piece));
            i += 1;
        }
        push_str(&mut out, "... +");
        push_dec(&mut out, total - 10);
        push_str(&mut out, " more lines");
    } else {
        push_str(&mut out, " lines\n");
        let ghost start = out@;
        let ghost piece = |l: Seq<char>| l + "\n"@;
        let mut i: usize = 0;
        assert(lv.take(0).map_values(piece) =~= Seq::<Seq<char>>::empty());
        while i < total
            invariant
                0 <= i <= total == lines.len(),
                lv == lines.deep_view(),
                piece == (|l: Seq<char>| l + "\n"@),
                out@ == start + concat(lv.take(i as int).map_values(piece)),
            decreases total - i,
        {
            assert(lines@[i as int].deep_view() =~= lines@[i as int]@);
            push_chars(&mut out, &lines[i]);
            push_str(&mut out, "\n");
            assert(lv.take(i + 1).map_values(piece).drop_last() =~= lv.take(i as int).map_values(piece));
            i += 1;
        }
        assert(lv.take(total as int) =~= lv);
    }
    string_of(&out)
}

// ---------------------------------------------------------------------------
// Laws
// ---------------------------------------------------------------------------

/// Arguments before `i` name no output file.
proof fn lemma_no_name_before(args: Seq<Seq<char>>, i: int, j: int)
    requires
        0 <= j <= i <= args.len(),
        forall|k: int| 0 <= k < i ==> !starts_with(#[trigger] args[k], "-O"@) && args[k] != "--output-document"@,
    ensures
        name_from_args(args, j) == name_from_args(args, i),
    decreases i - j,
{
    if j < i {
        reveal_strlit("-O");
        reveal_strlit("--output-document");
        assert(!starts_with(args[j], "-O"@));
        assert(args[j] != "-O"@) by {
            if args[j] == "-O"@ {
                assert(args[j].subrange(0, 2) =~= "-O"@);
            }
        }
        lemma_no_name_before(args, i, j + 1);
    }
}

/// Law: an output file given as `-O name` or `--output-document name` is the
/// file saved, wherever it stands among the arguments, when no argument
/// before it names one; whatever wget printed and whatever the URL.
pub proof fn law_output_argument_names_file(stderr: Seq<char>, url: Seq<char>, args: Seq<Seq<char>>, i: int)
    requires
        0 <= i,
        i + 1 < args.len(),
        args[i] == "-O"@ || args[i] == "--output-document"@,
        forall|k: int| 0 <= k < i ==> !starts_with(#[trigger] args[k], "-O"@) && args[k] != "--output-document"@,
    ensures
        downloaded_name(stderr, url, args) == args[i + 1],
{
    lemma_no_name_before(args, i, 0);
}

/// Law: an output file given as `-Oname` is the file saved, wherever it
/// stands among the arguments, when no argument before it names one.
pub proof fn law_attached_output_names_file(stderr: Seq<char>, url: Seq<char>, args: Seq<Seq<char>>, i: int)
    requires
        0 <= i < args.len(),
        starts_with(args[i], "-O"@),
        args[i] != "-O"@,
        forall|k: int| 0 <= k < i ==> !starts_with(#[trigger] args[k], "-O"@) && args[k] != "--output-document"@,
    ensures
        downloaded_name(stderr, url, args) == args[i].skip(2),
{
    reveal_strlit("-O");
    reveal_strlit("--output-document");
    lemma_no_name_before(args, i, 0);
    if args[i] == "--output-document"@ {
        assert(args[i][1] == '-');
        assert(args[i].subrange(0, 2)[1] == 'O');
    }
}

/// Law: without an argument that names an output file, the name comes from
/// what wget printed or from the URL, never from the arguments.
pub proof fn law_no_output_argument(stderr: Seq<char>, url: Seq<char>, args: Seq<Seq<char>>)
    requires
        forall|k: int| 0 <= k < args.len() ==> !starts_with(#[trigger] args[k], "-O"@) && args[k] != "--output-document"@,
    ensures
        downloaded_name(stderr, url, args) == match name_from_lines(split_lines(stderr), 0) {
            Some(n) => n,
            None => url_file_name(url),
        },
{
    lemma_no_name_before(args, args.len() as int, 0);
}

/// `div_round_even(n, d)` is a whole number nearest to `n / d`.
proof fn lemma_round_nearest(n: nat, d: nat)
    requires
        d > 0,
    ensures
        -(d as int) <= 2 * (n - div_round_even(n, d) * d) <= d,
{
    vstd::arithmetic::div_mod::lemma_fundamental_div_mod(n as int, d as int);
    let q = n / d;
    let r = n % d;
    assert(n == d * q + r);
    assert((q + 1) * d == q * d + d) by (nonlinear_arith);
    assert(q * d == d * q) by (nonlinear_arith);
}

/// The size text of `v / d` with one decimal and `unit` is the whole tenths
/// `t` written as `q.r` with `t` a nearest number of tenths.
pub open spec fn tenths_text(v: nat, d: nat, unit: Seq<char>, s: Seq<char>) -> bool {
    exists|t: nat|
        #![trigger dec(t / 10)]
        s == dec(t / 10) + "."@ + dec(t % 10) + unit && -(d as int) <= 2 * (10 * v - t * d) <= d
}

/// Law: a size of at least 1 KiB and under 1 MiB is written in KB with one
/// decimal: its number of tenths of KiB, rounded to a nearest one.
pub proof fn law_size_in_kb(bytes: nat)
    requires
        1024 <= bytes < 1024 * 1024,
    ensures
        tenths_text(bytes, 1024, "KB"@, size_text(bytes)),
{
    lemma_round_nearest(bytes * 10, 1024);
    let t = div_round_even(bytes * 10, 1024);
    assert(size_text(bytes) == dec(t / 10) + "."@ + dec(t % 10) + "KB"@);
}

/// Law: a size of at least 1 MiB and under 1 GiB is written in MB with one
/// decimal: its number of tenths of MiB, rounded to a nearest one.
pub proof fn law_size_in_mb(bytes: nat)
    requires
        1024 * 1024 <= bytes < 1024 * 1024 * 1024,
    ensures
        tenths_text(bytes, 1024 * 1024, "MB"@, size_text(bytes)),
{
    lemma_round_nearest(bytes * 10, 1024 * 1024);
    let t = div_round_even(bytes * 10, 1024 * 1024);
    assert(size_text(bytes) == dec(t / 10) + "."@ + dec(t % 10) + "MB"@);
}

/// Law: a size of at least 1 GiB (and below 2^53, where a float holds it
/// exactly) is written in GB with one decimal: its number of tenths of GiB,
/// rounded to a nearest one.
pub proof fn law_size_in_gb(bytes: nat)
    requires
        1024 * 1024 * 1024 <= bytes < 0x20_0000_0000_0000,
    ensures
        tenths_text(bytes, 1024 * 1024 * 1024, "GB"@, size_text(bytes)),
{
    assert(f64_spacing(bytes) == 1);
    assert(div_round_even(bytes, 1) == bytes) by {
        vstd::arithmetic::div_mod::lemma_fundamental_div_mod(bytes as int, 1);
    }
    assert(as_f64(bytes) == bytes);
    lemma_round_nearest(bytes * 10, 1024 * 1024 * 1024);
    let t = div_round_even(bytes * 10, 1024 * 1024 * 1024);
    assert(size_text(bytes) == dec(t / 10) + "."@ + dec(t % 10) + "GB"@);
}

/// Law: a size under 1 KiB is written in bytes, exactly; no size is `?`.
pub proof fn law_size_in_bytes(bytes: nat)
    requires
        0 < bytes < 1024,
    ensures
        size_text(bytes) == dec(bytes) + "B"@,
{
}

/// Law: a URL as shown never exceeds 50 characters.
pub proof fn law_compact_url_short(url: Seq<char>)
    ensures
        compact_url_text(url).len() <= 50,
{
    reveal_strlit("...");
}

/// Law: a URL without protocol of at most 50 characters is shown as it is.
pub proof fn law_compact_url_keeps_short(url: Seq<char>)
    requires
        without_protocol(url).len() <= 50,
    ensures
        compact_url_text(url) == without_protocol(url),
{
}

/// Law: a cut line has at most `max` characters (for `max` of at least 3),
/// and a line that fits is kept as it is.
pub proof fn law_truncated_fits(line: Seq<char>, max: nat)
    ensures
        max >= 3 ==> truncated(line, max).len() <= max,
        utf8_len(line) <= max ==> truncated(line, max) == line,
{
    reveal_strlit("...");
    crate::text::lemma_utf8_len_bound(line);
}

/// A meaningful line is not empty.
proof fn lemma_first_meaningful_nonempty(ls: Seq<Seq<char>>, i: int)
    ensures
        first_meaningful(ls, i) matches Some(t) ==> t.len() > 0,
    decreases ls.len() - i,
{
    if 0 <= i < ls.len() && !(trim(ls[i]).len() > 0 && !starts_with(trim(ls[i]), "--"@)) {
        lemma_first_meaningful_nonempty(ls, i + 1);
    }
}

/// Law: the reason of a failure is never empty.
pub proof fn law_error_text_not_empty(stderr: Seq<char>, stdout: Seq<char>)
    ensures
        error_text(stderr, stdout).len() > 0,
{
    reveal_strlit("404 Not Found");
    reveal_strlit("403 Forbidden");
    reveal_strlit("401 Unauthorized");
    reveal_strlit("500 Server Error");
    reveal_strlit("Connection refused");
    reveal_strlit("DNS lookup failed");
    reveal_strlit("Connection timed out");
    reveal_strlit("SSL/TLS error");
    reveal_strlit("Unknown error");
    reveal_strlit("...");
    lemma_first_meaningful_nonempty(split_lines(stderr), 0);
}

} // verus!
