use contextzip::error_cmd::{compress_errors, detect_language, Language};

    #[test]
    fn test_nodejs_stacktrace() {
        let input = r#"TypeError: Cannot read properties of undefined (reading 'id')
    at getUserProfile (/app/src/api/users.ts:47:12)
    at processAuth (/app/src/middleware/auth.ts:12:5)
    at Module._compile (node:internal/modules/cjs/loader:1376:14)
    at Object.Module._extensions..js (node:internal/modules/cjs/loader:1435:10)
    at Module.load (node:internal/modules/cjs/loader:1207:32)
    at Function.Module._load (node:internal/modules/cjs/loader:1023:12)
    at Router.handle (/app/node_modules/express/lib/router/index.js:45:12)
    at Layer.handle (/app/node_modules/express/lib/router/layer.js:95:5)"#;

        let result = compress_errors(input);

        // Must preserve error message
        assert!(result.contains("TypeError: Cannot read properties of undefined"));
        // Must keep user code frames
        assert!(result.contains("src/api/users.ts:47"));
        assert!(result.contains("src/middleware/auth.ts:12"));
        // Must remove framework frames
        assert!(!result.contains("node:internal"));
        assert!(!result.contains("node_modules"));
        // Must show hidden count
        assert!(result.contains("framework frames hidden"));
    }

    #[test]
    fn test_python_traceback() {
        let input = r#"Traceback (most recent call last):
  File "/app/src/handler.py", line 42, in process_request
    result = compute(data)
  File "/usr/lib/python3.11/importlib/__init__.py", line 126, in import_module
    return _bootstrap._gcd_import(name[level:], package, level)
  File "/app/venv/lib/python3.11/site-packages/flask/app.py", line 1498, in __call__
    return self.wsgi_app(environ, start_response)
  File "/app/src/utils.py", line 18, in compute
    return x / y
ZeroDivisionError: division by zero"#;

        let result = compress_errors(input);

        // Must preserve error message
        assert!(result.contains("ZeroDivisionError: division by zero"));
        // Must keep user code frames
        assert!(result.contains("src/handler.py:42"));
        assert!(result.contains("src/utils.py:18"));
        // Must remove framework frames
        assert!(!result.contains("site-packages"));
        assert!(!result.contains("importlib"));
        // Must show hidden count
        assert!(result.contains("framework frames hidden"));
    }

    #[test]
    fn test_rust_panic() {
        let input = r#"thread 'main' panicked at 'index out of bounds: the len is 3 but the index is 5', src/main.rs:42:10
stack backtrace:
   0: std::panicking::begin_panic_handler
   1: core::panicking::panic_fmt
   2: core::panicking::panic_bounds_check
   3: myapp::process_data
   4: myapp::main
   5: std::rt::lang_start
   6: std::rt::lang_start::{{closure}}"#;

        let result = compress_errors(input);

        // Must preserve panic message
        assert!(result.contains("panicked at"));
        assert!(result.contains("index out of bounds"));
        // Must keep user code frames
        assert!(result.contains("myapp::process_data"));
        assert!(result.contains("myapp::main"));
        // Must remove framework frames
        assert!(!result.contains("std::panicking::begin_panic_handler"));
        assert!(!result.contains("std::rt::lang_start"));
        // Must show hidden count
        assert!(result.contains("framework frames hidden"));
    }

    #[test]
    fn test_go_goroutine() {
        let input = r#"goroutine 1 [running]:
runtime/debug.Stack()
	/usr/local/go/src/runtime/debug/stack.go:24 +0x5e
runtime/debug.PrintStack()
	/usr/local/go/src/runtime/debug/stack.go:16 +0x1a
main.handleRequest()
	/app/src/handler.go:35 +0x2a
main.main()
	/app/src/main.go:12 +0x1f"#;

        let result = compress_errors(input);

        // Must preserve goroutine header
        assert!(result.contains("goroutine 1 [running]"));
        // Must keep user code frames
        assert!(result.contains("handler.go:35"));
        assert!(result.contains("main.go:12"));
        // Must remove runtime frames
        assert!(!result.contains("runtime/debug.Stack"));
        assert!(!result.contains("runtime/debug.PrintStack"));
        // Must show hidden count
        assert!(result.contains("framework frames hidden"));
    }

    #[test]
    fn test_java_stacktrace() {
        let input = r#"java.lang.NullPointerException: Cannot invoke method on null
	at com.myapp.service.UserService.getUser(UserService.java:42)
	at com.myapp.controller.UserController.show(UserController.java:18)
	at java.lang.reflect.Method.invoke(Method.java:566)
	at sun.reflect.NativeMethodAccessorImpl.invoke(NativeMethodAccessorImpl.java:62)
	at org.springframework.web.servlet.FrameworkServlet.service(FrameworkServlet.java:897)"#;

        let result = compress_errors(input);

        // Must preserve error message
        assert!(result.contains("NullPointerException"));
        // Must keep user code frames
        assert!(result.contains("UserService.java:42"));
        assert!(result.contains("UserController.java:18"));
        // Must remove framework frames
        assert!(!result.contains("java.lang.reflect.Method"));
        assert!(!result.contains("sun.reflect"));
        assert!(!result.contains("org.springframework"));
        // Must show hidden count
        assert!(result.contains("framework frames hidden"));
    }

    #[test]
    fn test_repeated_errors() {
        let input = "Error: connection refused\nError: connection refused\nError: connection refused\nError: connection refused";

        let result = compress_errors(input);

        // Should contain the error once
        assert!(result.contains("Error: connection refused"));
        // Should show repeat count
        assert!(result.contains("repeated 4 times"));
    }

    #[test]
    fn test_no_stacktrace_passthrough() {
        let input = "Building project...\nCompiling 42 modules\nDone in 3.2s";

        let result = compress_errors(input);

        // Should pass through unchanged
        assert_eq!(result, input);
    }

    #[test]
    fn test_mixed_content_with_stacktrace() {
        let input = r#"Server starting on port 3000
Handling request GET /api/users
TypeError: Cannot read properties of undefined (reading 'name')
    at getUser (/app/src/routes/users.ts:23:15)
    at Layer.handle (/app/node_modules/express/lib/router/layer.js:95:5)
    at Router.handle (/app/node_modules/express/lib/router/index.js:45:12)
    at Object.Module._extensions..js (node:internal/modules/cjs/loader:1435:10)
Request failed"#;

        let result = compress_errors(input);

        // Must preserve non-stacktrace content
        assert!(result.contains("Server starting on port 3000"));
        assert!(result.contains("Handling request"));
        assert!(result.contains("Request failed"));
        // Must preserve error and user frames
        assert!(result.contains("TypeError"));
        assert!(result.contains("src/routes/users.ts:23"));
        // Must remove framework frames
        assert!(!result.contains("node_modules"));
        assert!(!result.contains("node:internal"));
    }

    #[test]
    fn test_detect_language_nodejs() {
        let input = "Error\n    at foo (/app/src/index.ts:10:5)";
        assert_eq!(detect_language(input), Some(Language::NodeJs));
    }

    #[test]
    fn test_detect_language_python() {
        let input = "Traceback (most recent call last):\n  File \"test.py\", line 1";
        assert_eq!(detect_language(input), Some(Language::Python));
    }

    #[test]
    fn test_detect_language_rust() {
        let input = "thread 'main' panicked at 'error', src/main.rs:1:1";
        assert_eq!(detect_language(input), Some(Language::Rust));
    }

    #[test]
    fn test_detect_language_go() {
        let input = "goroutine 1 [running]:";
        assert_eq!(detect_language(input), Some(Language::Go));
    }

    #[test]
    fn test_detect_language_java() {
        let input = "\tat com.example.Main.run(Main.java:10)";
        assert_eq!(detect_language(input), Some(Language::Java));
    }

    #[test]
    fn test_detect_language_none() {
        let input = "just some normal text";
        assert_eq!(detect_language(input), None);
    }
