use contextzip::build_cmd::group_build_errors;

    // Test 1: TSC errors grouped by TS code, all line numbers preserved
    #[test]
    fn test_tsc_errors_grouped_by_code() {
        let input = "\
src/api/users.ts(47,5): error TS2322: Type 'string' is not assignable to type 'number'.
src/api/users.ts(83,10): error TS2322: Type 'string' is not assignable to type 'number'.
src/api/orders.ts(12,3): error TS2322: Type 'string' is not assignable to type 'number'.
src/api/orders.ts(45,7): error TS2345: Argument of type 'number' is not assignable to parameter of type 'string'.
src/api/products.ts(23,1): error TS2322: Type 'string' is not assignable to type 'number'.
";
        let result = group_build_errors(input);
        assert!(result.contains("TS2322"));
        assert!(result.contains("TS2345"));
        assert!(result.contains(":47"));
        assert!(result.contains(":83"));
        assert!(result.contains(":12"));
        assert!(result.contains(":23"));
        assert!(result.contains(":45"));
        assert!(result.contains("(x4)"));
    }

    // Test 2: ESLint errors grouped by rule name
    #[test]
    fn test_eslint_errors_grouped_by_rule() {
        let input = "\
/Users/test/project/src/utils.ts
  10:5  error  Use const instead of let  prefer-const
  15:5  error  Use const instead of let  prefer-const

/Users/test/project/src/api.ts
  20:10  error  Variable x is unused  @typescript-eslint/no-unused-vars
  30:5   error  Use const instead of let  prefer-const

";
        let result = group_build_errors(input);
        assert!(result.contains("prefer-const"));
        assert!(result.contains("@typescript-eslint/no-unused-vars"));
        assert!(result.contains(":10"));
        assert!(result.contains(":15"));
        assert!(result.contains(":20"));
        assert!(result.contains(":30"));
        assert!(result.contains("(x3)"));
    }

    // Test 3: Cargo build errors grouped by E code
    #[test]
    fn test_cargo_errors_grouped_by_e_code() {
        let input = "\
error[E0308]: mismatched types
  --> src/main.rs:12:5
   |
12 |     let x: i32 = \"hello\";
   |                  ^^^^^^^ expected `i32`, found `&str`

error[E0308]: mismatched types
  --> src/lib.rs:45:10
   |
45 |     foo(\"bar\")
   |         ^^^^^ expected `i32`, found `&str`

error[E0599]: no method named `foo` found for struct `Bar`
  --> src/utils.rs:23:5
   |
23 |     bar.foo()
   |         ^^^ method not found
";
        let result = group_build_errors(input);
        assert!(result.contains("E0308"));
        assert!(result.contains("E0599"));
        assert!(result.contains(":12"));
        assert!(result.contains(":45"));
        assert!(result.contains(":23"));
        assert!(result.contains("(x2)"), "E0308 should appear twice");
    }

    // Test 4: ALL line numbers preserved (40 errors, verify all 40 appear)
    #[test]
    fn test_all_40_line_numbers_preserved() {
        let mut input = String::new();
        for i in 1..=40 {
            let file_idx = (i - 1) / 4 + 1;
            let line_num = i * 10;
            input.push_str(&format!(
                "src/file{}.ts({},5): error TS2322: Type 'string' is not assignable to type 'number'.\n",
                file_idx, line_num
            ));
        }
        let result = group_build_errors(&input);
        // Verify all 40 line numbers appear
        for i in 1..=40 {
            let line_num = i * 10;
            assert!(
                result.contains(&format!(":{}", line_num)),
                "Line number :{} missing from output",
                line_num
            );
        }
        assert!(result.contains("(x40)"));
    }

    // Test 5: No build errors -> passthrough unchanged
    #[test]
    fn test_no_build_errors_passthrough() {
        let input =
            "Compiling myproject v0.1.0\n    Finished dev [unoptimized + debuginfo] target(s)\n";
        let result = group_build_errors(input);
        assert_eq!(result, input);
    }

    // Test 6: Mixed error codes -> separate groups
    #[test]
    fn test_mixed_error_codes_separate_groups() {
        let input = "\
src/a.ts(10,1): error TS2322: Type 'string' is not assignable to type 'number'.
src/b.ts(20,1): error TS2345: Argument of type 'number' is not assignable.
src/c.ts(30,1): error TS2322: Type 'string' is not assignable to type 'number'.
src/d.ts(40,1): error TS2339: Property 'x' does not exist.
";
        let result = group_build_errors(input);
        assert!(result.contains("TS2322"));
        assert!(result.contains("TS2345"));
        assert!(result.contains("TS2339"));
        assert!(result.contains("TS2322: Type 'string' is not assignable to type 'number'. (x2)"));
    }

    // Test 7: Single error -> no grouping count
    #[test]
    fn test_single_error_no_grouping_count() {
        let input =
            "src/main.ts(42,5): error TS2322: Type 'string' is not assignable to type 'number'.\n";
        let result = group_build_errors(input);
        assert!(result.contains("TS2322"));
        assert!(result.contains(":42"));
        assert!(!result.contains("(x1)"));
    }

    // Test 8: mypy errors grouped by error code
    #[test]
    fn test_mypy_errors_grouped() {
        let input = "\
src/api.py:10: error: Incompatible return value type  [return-value]
src/api.py:20: error: Incompatible return value type  [return-value]
src/models.py:30: error: Incompatible types in assignment  [assignment]
src/models.py:40: error: Name 'foo' is not defined  [name-defined]
";
        let result = group_build_errors(input);
        assert!(result.contains("return-value"));
        assert!(result.contains("assignment"));
        assert!(result.contains("name-defined"));
        assert!(result.contains(":10"));
        assert!(result.contains(":20"));
        assert!(result.contains(":30"));
        assert!(result.contains(":40"));
    }

    // Test 9: pylint errors grouped
    #[test]
    fn test_pylint_errors_grouped() {
        let input = "\
src/main.py:10:0: W0612: Unused variable 'x' (unused-variable)
src/main.py:15:4: W0612: Unused variable 'y' (unused-variable)
src/utils.py:20:0: E0602: Undefined variable 'z' (undefined-variable)
";
        let result = group_build_errors(input);
        assert!(result.contains("W0612"));
        assert!(result.contains("E0602"));
        assert!(result.contains(":10"));
        assert!(result.contains(":15"));
        assert!(result.contains(":20"));
    }

    // Test 10: Many files triggers compact summary with all locations preserved
    #[test]
    fn test_many_files_shows_summary() {
        let mut input = String::new();
        for i in 1..=12 {
            input.push_str(&format!(
                "src/file{}.ts({},5): error TS2322: Type error.\n",
                i,
                i * 10
            ));
        }
        let result = group_build_errors(&input);
        assert!(result.contains("+4 files"));
        assert!(result.contains("(x12)"));
        // All 12 line numbers must still be present
        for i in 1..=12 {
            let line_num = i * 10;
            assert!(
                result.contains(&format!(":{}", line_num)),
                "Line number :{} missing from output",
                line_num
            );
        }
    }
