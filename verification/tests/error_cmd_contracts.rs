use contextzip::error_cmd::{
    compress_errors, compress_matched, deduplicate_repeated_errors, detect_language, Language,
    TraceLineMatches,
};

fn plain_matches() -> TraceLineMatches {
    TraceLineMatches {
        node_frame: false,
        node_frame_bare: false,
        node_framework: false,
        node_extract: None,
        python_traceback: false,
        python_file: None,
        python_framework: false,
        rust_panic: false,
        rust_frame: false,
        rust_framework: false,
        goroutine: false,
        go_frame: false,
        go_func: false,
        go_framework: false,
        java_extract: None,
        java_framework: false,
    }
}

#[test]
fn node_trace_exact() {
    let input = "TypeError: x\n    at getUserProfile (/app/src/api/users.ts:47:12)\n    at Module._compile (node:internal/modules/cjs/loader:1376:14)";
    assert_eq!(
        compress_errors(input),
        "TypeError: x\n  → /app/src/api/users.ts:47   getUserProfile()\n  (+ 1 framework frames hidden)"
    );
}

#[test]
fn python_trace_exact() {
    let input = r#"Traceback (most recent call last):
  File "/app/src/handler.py", line 42, in process_request
    result = compute(data)
  File "/usr/lib/python3.11/importlib/__init__.py", line 126, in import_module
    return _bootstrap._gcd_import(name[level:], package, level)
  File "/app/venv/lib/python3.11/site-packages/flask/app.py", line 1498, in __call__
    return self.wsgi_app(environ, start_response)
  File "/app/src/utils.py", line 18, in compute
    return x / y
ZeroDivisionError: division by zero"#;
    assert_eq!(
        compress_errors(input),
        "Traceback (most recent call last):\n  → /app/src/handler.py:42         result = compute(data)\n  → /app/src/utils.py:18         return x / y\n  (+ 2 framework frames hidden)\nZeroDivisionError: division by zero"
    );
}

#[test]
fn rust_trace_exact() {
    let input = "thread 'main' panicked at 'boom', src/main.rs:42:10\nstack backtrace:\n   0: std::panicking::begin_panic_handler\n   1: core::panicking::panic_fmt\n   2: myapp::main\n   3: std::rt::lang_start";
    assert_eq!(
        compress_errors(input),
        "thread 'main' panicked at 'boom', src/main.rs:42:10\nstack backtrace:\n  → 1: core::panicking::panic_fmt\n  → 2: myapp::main\n  (+ 2 framework frames hidden)"
    );
}

#[test]
fn go_trace_exact() {
    let input = "goroutine 1 [running]:\nruntime/debug.Stack()\n\t/usr/local/go/src/runtime/debug/stack.go:24 +0x5e\nmain.main()\n\t/app/src/main.go:12 +0x1f";
    assert_eq!(
        compress_errors(input),
        "goroutine 1 [running]:\n  → main.main()\n  → /app/src/main.go:12 +0x1f\n  (+ 1 framework frames hidden)"
    );
}

#[test]
fn java_trace_exact() {
    let input = "java.lang.NullPointerException: null\n\tat com.myapp.UserService.getUser(UserService.java:42)\n\tat java.lang.reflect.Method.invoke(Method.java:566)\nCaused by: x";
    assert_eq!(
        compress_errors(input),
        "java.lang.NullPointerException: null\n  → UserService.java:42         com.myapp.UserService.getUser()\n  (+ 1 framework frames hidden)\nCaused by: x"
    );
}

#[test]
fn repeats_collapsed_exact() {
    assert_eq!(deduplicate_repeated_errors("a\na\nb"), "a\n  (repeated 2 times)\nb");
    assert_eq!(deduplicate_repeated_errors("x\n"), "x\n");
    assert_eq!(deduplicate_repeated_errors("a\r\nb"), "a\r\nb");
    assert_eq!(deduplicate_repeated_errors("a\r\na\r\nb\n"), "a\n  (repeated 2 times)\nb");
    assert_eq!(deduplicate_repeated_errors(""), "");
}

#[test]
fn plain_text_unchanged_law_on_values() {
    let input = "line one\nline two\nline three";
    assert_eq!(compress_errors(input), input);
    assert_eq!(compress_errors("a\nb\n"), "a\nb\n");
    assert_eq!(compress_errors("a\r\nb\r\n"), "a\r\nb\r\n");
}

#[test]
fn readme_node_example_exact() {
    let input = "TypeError: Cannot read properties of undefined (reading 'id')
    at getUserProfile (/app/src/api/users.ts:47:12)
    at processAuth (/app/src/middleware/auth.ts:12:5)
    at Module._compile (node:internal/modules/cjs/loader:1376:14)
    at Object.Module._extensions..js (node:internal/modules/cjs/loader:1435:10)
    at Module.load (node:internal/modules/cjs/loader:1207:32)
    at Router.handle (/app/node_modules/express/lib/router/index.js:45:12)
    at Layer.handle (/app/node_modules/express/lib/router/layer.js:95:5)";
    let expected = "TypeError: Cannot read properties of undefined (reading 'id')
  → src/api/users.ts:47         getUserProfile()
  → src/middleware/auth.ts:12   processAuth()
  (+ 5 framework frames hidden)";
    assert_eq!(compress_errors(input), expected);
}

#[test]
fn python_error_after_framework_frame_kept() {
    let input = "Traceback (most recent call last):\n  File \"/app/main.py\", line 1, in <module>\n    import foo\n  File \"<frozen importlib._bootstrap>\", line 1027, in _find_and_load\nModuleNotFoundError: No module named 'foo'";
    assert_eq!(
        compress_errors(input),
        "Traceback (most recent call last):\n  → /app/main.py:1         import foo\n  (+ 1 framework frames hidden)\nModuleNotFoundError: No module named 'foo'"
    );
}

#[test]
fn python_docs_example_exact() {
    let input = "Traceback (most recent call last):\n  File \"/app/main.py\", line 10, in handler\n    process(data)\n  File \"/usr/lib/python3.11/importlib/__init__.py\", line 126, in import_module\n  File \"/app/venv/lib/python3.11/site-packages/flask/app.py\", line 1498, in __call__\nValueError: invalid literal for int()";
    assert_eq!(
        compress_errors(input),
        "Traceback (most recent call last):\n  → /app/main.py:10         process(data)\n  (+ 2 framework frames hidden)\nValueError: invalid literal for int()"
    );
}

#[test]
fn go_runtime_frames_removed_with_their_file_lines() {
    let input = "goroutine 1 [running]:\nruntime/debug.Stack()\n\t/usr/local/go/src/runtime/debug/stack.go:24 +0x5e\nruntime/debug.PrintStack()\n\t/usr/local/go/src/runtime/debug/stack.go:16 +0x1a\nmain.handleRequest()\n\t/app/src/handler.go:35 +0x2a";
    let out = compress_errors(input);
    assert!(!out.contains("runtime/debug"), "{}", out);
    assert_eq!(
        out,
        "goroutine 1 [running]:\n  → main.handleRequest()\n  → /app/src/handler.go:35 +0x2a\n  (+ 2 framework frames hidden)"
    );
}

#[test]
fn compression_never_adds_lines_on_values() {
    let input = "Error\n    at a (node_modules/x.js:1:1)\n    at b (node_modules/y.js:2:2)\n    at c (/src/z.js:3:3)";
    let out = compress_errors(input);
    assert!(out.lines().count() <= input.lines().count(), "{}", out);
    assert!(out.contains("/src/z.js:3"));
    assert!(out.contains("(+ 2 framework frames hidden)"));
}

#[test]
fn python_marker_wins_over_node_frames() {
    let input = "    at foo (/a.js:1:2)\nTraceback (most recent call last):";
    assert_eq!(detect_language(input), Some(Language::Python));
}

#[test]
fn java_needs_a_package_path() {
    assert_eq!(detect_language("\tat run(Main.java:10)"), None);
    assert_eq!(detect_language("\tat a.b(Main.java:10)"), Some(Language::Java));
}

#[test]
fn compress_from_given_matches() {
    let mut m1 = plain_matches();
    m1.node_frame = true;
    m1.node_extract = Some(vec![
        Some("  at x (f.js:1:2)".to_string()),
        Some("x".to_string()),
        Some("f.js".to_string()),
        Some("1".to_string()),
    ]);
    let ms = vec![plain_matches(), m1];
    assert_eq!(compress_matched("Err\n  at x (f.js:1:2)", &ms), "Err\n  → f.js:1   x()");
    let ms2 = vec![plain_matches(), plain_matches()];
    assert_eq!(compress_matched("Err\nmore", &ms2), "Err\nmore");
}
