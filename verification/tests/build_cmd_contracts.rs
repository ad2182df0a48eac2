use contextzip::build_cmd::{group_build_errors, group_matched_errors, BuildLineMatches};

fn none_matches() -> BuildLineMatches {
    BuildLineMatches {
        tsc: None,
        cargo_header: None,
        cargo_location: None,
        mypy: None,
        pylint: None,
        eslint_file: None,
        eslint_issue: None,
    }
}

fn groups(texts: &[&str]) -> Option<Vec<Option<String>>> {
    Some(texts.iter().map(|t| Some(t.to_string())).collect())
}

#[test]
fn readme_example_exact_output() {
    let input = "\
src/api/users.ts(47,5): error TS2322: Type 'string' is not assignable to type 'number'.
src/api/users.ts(83,10): error TS2322: Type 'string' is not assignable to type 'number'.
src/api/orders.ts(12,3): error TS2322: Type 'string' is not assignable to type 'number'.
src/api/orders.ts(45,7): error TS2345: Argument of type 'number' is not assignable.
src/api/products.ts(23,1): error TS2322: Type 'string' is not assignable to type 'number'.
";
    let expected = "\
TS2322: Type 'string' is not assignable to type 'number'. (x4)
  src/api/users.ts     :47, :83
  src/api/orders.ts    :12
  src/api/products.ts  :23
TS2345: Argument of type 'number' is not assignable.
  src/api/orders.ts    :45";
    assert_eq!(group_build_errors(input), expected);
}

#[test]
fn every_group_padded_to_the_widest_name_of_the_report() {
    let input = "a.ts(1,1): error TS1: m\nlonger/name.ts(2,1): error TS2: n\nlonger/name.ts(3,1): error TS2: n\n";
    let expected = "TS2: n (x2)\n  longer/name.ts  :2, :3\nTS1: m\n  a.ts            :1";
    assert_eq!(group_build_errors(input), expected);
}

#[test]
fn many_files_rest_line_exact() {
    let mut input = String::new();
    for i in 1..=12 {
        input.push_str(&format!("src/file{}.ts({},5): error TS2322: Type error.\n", i, i * 10));
    }
    let out = group_build_errors(&input);
    assert!(out.starts_with("TS2322: Type error. (x12)\n  src/file1.ts   :10\n  src/file10.ts  :100\n"));
    assert!(out.ends_with(
        "  ... +4 files (4 occurrences): src/file6.ts(:60), src/file7.ts(:70), src/file8.ts(:80), src/file9.ts(:90)"
    ));
}

#[test]
fn repeated_line_numbers_are_shown_once_but_counted() {
    let mut input = String::from("a.ts(10,1): error TS1: m\na.ts(10,2): error TS1: m\n");
    for c in ['b', 'c', 'd', 'e', 'f', 'g', 'h', 'i'] {
        input.push_str(&format!("{}.ts(10,1): error TS1: m\n", c));
    }
    let out = group_build_errors(&input);
    assert!(out.starts_with("TS1: m (x10)\n  a.ts  :10\n"));
    assert!(out.ends_with("  ... +1 files (2 occurrences): i.ts(:10)"));
}

#[test]
fn crlf_text_without_errors_comes_back_unchanged() {
    let input = "all good\r\nnothing to see\r\n";
    assert_eq!(group_build_errors(input), input);
}

#[test]
fn cargo_header_without_near_location_is_not_grouped() {
    let input = "error[E0308]: mismatched types\n1\n2\n3\n4\n5\n  --> src/main.rs:12:5\n";
    assert_eq!(group_build_errors(input), input);
}

#[test]
fn cargo_location_within_five_lines_is_used() {
    let input = "error[E0308]: mismatched types\n1\n2\n3\n4\n  --> src/main.rs:12:5\n";
    assert_eq!(group_build_errors(input), "E0308: mismatched types\n  src/main.rs  :12");
}

#[test]
fn eslint_block_ends_at_unrelated_line() {
    let input = "\
/p/a.ts
  10:5  error  Use const  prefer-const
something else
  20:5  error  Use const  prefer-const
";
    assert_eq!(group_build_errors(input), "prefer-const: Use const\n  /p/a.ts  :10");
}

#[test]
fn mypy_with_column_and_pylint_codes() {
    let input = "\
src/a.py:3:7: error: Bad thing  [misc]
src/b.py:4:0: C0114: Missing module docstring (missing-module-docstring)
";
    assert_eq!(
        group_build_errors(input),
        "C0114: Missing module docstring\n  src/b.py  :4\nmisc: Bad thing\n  src/a.py  :3"
    );
}

#[test]
fn every_location_kept_law_on_values() {
    let input = "\
x/one.ts(1,1): error TS1: a
x/two.ts(22,1): error TS2: b
x/one.ts(333,1): error TS1: a
";
    let out = group_build_errors(input);
    for needle in [":1", ":22", ":333", "x/one.ts", "x/two.ts", "TS1", "TS2"] {
        assert!(out.contains(needle), "{} missing from {}", needle, out);
    }
}

#[test]
fn groups_ordered_by_count_then_code() {
    let input = "\
f.ts(1,1): error TS9: nine
f.ts(2,1): error TS1: one
f.ts(3,1): error TS5: five
f.ts(4,1): error TS5: five
";
    let out = group_build_errors(input);
    let p5 = out.find("TS5").unwrap();
    let p1 = out.find("TS1:").unwrap();
    let p9 = out.find("TS9").unwrap();
    assert!(p5 < p1 && p1 < p9, "{}", out);
}

#[test]
fn unparsable_line_number_becomes_zero() {
    let input = "f.ts(99999999999999999999999,1): error TS1: big\n";
    assert_eq!(group_build_errors(input), "TS1: big\n  f.ts  :0");
}

#[test]
fn matched_errors_from_given_matches() {
    let mut m0 = none_matches();
    m0.tsc = groups(&["whole", "f.ts", "7", "TS1", "msg"]);
    let ms = vec![m0, none_matches()];
    assert_eq!(group_matched_errors("A\nB", &ms), "TS1: msg\n  f.ts  :7");
    let ms2 = vec![none_matches(), none_matches()];
    assert_eq!(group_matched_errors("A\nB", &ms2), "A\nB");
}

#[test]
fn line_numbers_once_and_ascending() {
    let input = "a.ts(30,1): error TS1: m\na.ts(10,1): error TS1: m\na.ts(30,5): error TS1: m\n";
    assert_eq!(group_build_errors(input), "TS1: m (x3)\n  a.ts  :10, :30");
}
