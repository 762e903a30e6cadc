//! Definitions observed in source text.
use dlog::anchor::{
    definition_at_line, extract_definitions, language_for_path, GO, JAVA, PHP, PYTHON, RUBY, RUST,
    TYPESCRIPT,
};

fn hash_of_single_def(source: &str) -> String {
    let defs = extract_definitions(source, &RUST);
    assert_eq!(defs.len(), 1, "expected exactly one definition");
    defs.into_iter().next().unwrap().structural_hash
}

#[test]
fn language_for_path_maps_extensions() {
    assert!(language_for_path("src/a.rs").is_some());
    assert!(language_for_path("src/a.ts").is_some());
    assert!(language_for_path("src/a.tsx").is_some());
    assert!(language_for_path("src/a.go").is_some());
    assert!(language_for_path("src/a.php").is_some());
    assert!(language_for_path("src/a.py").is_some());
    assert!(language_for_path("src/a.pyi").is_some());
    assert!(language_for_path("src/A.java").is_some());
    assert!(language_for_path("src/a.rb").is_some());
    assert!(language_for_path("README.md").is_none());
    assert!(language_for_path("Makefile").is_none());
    // A dot in a directory must not be mistaken for an extension.
    assert!(language_for_path("a.b/Makefile").is_none());
}

#[test]
fn extracts_nested_symbol_paths_and_kinds() {
    let source = r#"
mod net {
    pub struct Client { url: String }
    impl Client {
        fn connect(&self) -> bool { true }
    }
    pub trait Transport {
        fn send(&self);
    }
}

fn main() {}
"#;
    let defs = extract_definitions(source, &RUST);
    let by_path: Vec<(&str, &str)> = defs
        .iter()
        .map(|d| (d.symbol_path.as_str(), d.node_kind.as_str()))
        .collect();

    assert!(by_path.contains(&("net", "module")));
    assert!(by_path.contains(&("net::Client", "struct")));
    assert!(by_path.contains(&("net::Client::connect", "method")));
    assert!(by_path.contains(&("net::Transport", "trait")));
    assert!(by_path.contains(&("net::Transport::send", "method")));
    assert!(by_path.contains(&("main", "function")));
}

#[test]
fn extracts_typescript_definitions() {
    let source = r#"
namespace net {
  export class Client {
    connect(n: number): boolean { return n > 0; }
  }
  export interface Transport { send(x: string): void; }
  export function helper(a: number, b: number) { return a + b; }
}
function top() {}
"#;
    let defs = extract_definitions(source, &TYPESCRIPT);
    let by_path: Vec<(&str, &str)> = defs
        .iter()
        .map(|d| (d.symbol_path.as_str(), d.node_kind.as_str()))
        .collect();

    assert!(by_path.contains(&("net", "module")));
    assert!(by_path.contains(&("net::Client", "class")));
    assert!(by_path.contains(&("net::Client::connect", "method")));
    assert!(by_path.contains(&("net::Transport", "interface")));
    assert!(by_path.contains(&("net::Transport::send", "method")));
    assert!(by_path.contains(&("net::helper", "function")));
    assert!(by_path.contains(&("top", "function")));
}

#[test]
fn typescript_definition_at_line_and_hash_invariance() {
    let source = "class C {\n  m(a: number): void {\n    let x = 1;\n  }\n}\n";
    let def = definition_at_line(source, 3, &TYPESCRIPT).expect("line 3 inside C::m");
    assert_eq!(def.symbol_path, "C::m");
    assert_eq!(def.node_kind, "method");

    // Identifier renames don't change the TS hash; an arity change does.
    let h = |s: &str| {
        extract_definitions(s, &TYPESCRIPT)
            .into_iter()
            .next()
            .unwrap()
            .structural_hash
    };
    assert_eq!(
        h("function f(a: number) { return a; }"),
        h("function renamed(b: number) { return b; }")
    );
    assert_ne!(
        h("function f(a: number) {}"),
        h("function f(a: number, b: number) {}")
    );
}

#[test]
fn extracts_go_definitions() {
    let source = r#"
package net

type Client struct { url string }

func (c *Client) Connect(n int) bool { return n > 0 }

func Helper(a int, b int) int { return a + b }

type Transport interface {
    Send(x string)
}
"#;
    let defs = extract_definitions(source, &GO);
    let by_path: Vec<(&str, &str)> = defs
        .iter()
        .map(|d| (d.symbol_path.as_str(), d.node_kind.as_str()))
        .collect();

    assert!(by_path.contains(&("Client", "struct")));
    // Receiver type is prepended even though the method is top-level.
    assert!(by_path.contains(&("Client::Connect", "method")));
    assert!(by_path.contains(&("Helper", "function")));
    assert!(by_path.contains(&("Transport", "interface")));
    assert!(by_path.contains(&("Transport::Send", "method")));
}

#[test]
fn go_definition_at_line_and_hash_invariance() {
    let source = "package p\nfunc (c *Client) m(a int) int {\n  x := a\n  return x\n}\n";
    let def = definition_at_line(source, 3, &GO).expect("line 3 inside Client::m");
    assert_eq!(def.symbol_path, "Client::m");
    assert_eq!(def.node_kind, "method");

    // Identifier renames don't change the Go hash; an arity change does.
    let h = |s: &str| {
        extract_definitions(s, &GO)
            .into_iter()
            .next()
            .unwrap()
            .structural_hash
    };
    assert_eq!(
        h("package p\nfunc f(a int) int { return a }"),
        h("package p\nfunc renamed(b int) int { return b }")
    );
    assert_ne!(
        h("package p\nfunc f(a int) {}"),
        h("package p\nfunc f(a int, b int) {}")
    );
}

#[test]
fn extracts_php_definitions() {
    let source = r#"<?php
namespace App {
    class Client {
        public function connect(int $n): bool { return $n > 0; }
    }
    interface Transport { public function send(string $x): void; }
    trait Loggable { public function log(): void {} }
    function helper(int $a, int $b): int { return $a + $b; }
}
"#;
    let defs = extract_definitions(source, &PHP);
    let by_path: Vec<(&str, &str)> = defs
        .iter()
        .map(|d| (d.symbol_path.as_str(), d.node_kind.as_str()))
        .collect();

    assert!(by_path.contains(&("App", "module")));
    assert!(by_path.contains(&("App::Client", "class")));
    assert!(by_path.contains(&("App::Client::connect", "method")));
    assert!(by_path.contains(&("App::Transport", "interface")));
    assert!(by_path.contains(&("App::Transport::send", "method")));
    assert!(by_path.contains(&("App::Loggable", "trait")));
    assert!(by_path.contains(&("App::Loggable::log", "method")));
    assert!(by_path.contains(&("App::helper", "function")));
}

#[test]
fn php_definition_at_line_and_hash_invariance() {
    let source = "<?php\nclass C {\n  function m(int $a): void {\n    $x = 1;\n  }\n}\n";
    let def = definition_at_line(source, 4, &PHP).expect("line 4 inside C::m");
    assert_eq!(def.symbol_path, "C::m");
    assert_eq!(def.node_kind, "method");

    // Identifier renames don't change the PHP hash; an arity change does.
    let h = |s: &str| {
        extract_definitions(s, &PHP)
            .into_iter()
            .next()
            .unwrap()
            .structural_hash
    };
    assert_eq!(
        h("<?php function f(int $a) { return $a; }"),
        h("<?php function renamed(int $b) { return $b; }")
    );
    assert_ne!(
        h("<?php function f(int $a) {}"),
        h("<?php function f(int $a, int $b) {}")
    );
}

#[test]
fn extracts_python_definitions() {
    let source = r#"
class Client:
    def connect(self, n):
        return n > 0

    @staticmethod
    def build(url):
        return Client()

class Nested:
    class Inner:
        def deep(self):
            pass

def helper(a, b):
    def local():
        pass
    return a + b
"#;
    let defs = extract_definitions(source, &PYTHON);
    let by_path: Vec<(&str, &str)> = defs
        .iter()
        .map(|d| (d.symbol_path.as_str(), d.node_kind.as_str()))
        .collect();

    assert!(by_path.contains(&("Client", "class")));
    assert!(by_path.contains(&("Client::connect", "method")));
    assert!(by_path.contains(&("Client::build", "method")));
    assert!(by_path.contains(&("Nested::Inner", "class")));
    assert!(by_path.contains(&("Nested::Inner::deep", "method")));
    assert!(by_path.contains(&("helper", "function")));
    // A nested `def` inside a function is a function, not a method.
    assert!(by_path.contains(&("helper::local", "function")));
}

#[test]
fn python_decorator_lines_belong_to_the_definition() {
    // The `@decorator` line is above `def`, and pointing at it must still
    // resolve to the decorated function (span widened past the def node).
    let source = "@app.route(\"/\")\n@cached\ndef index():\n    return 1\n";
    for line in 1..=4 {
        let def = definition_at_line(source, line, &PYTHON)
            .unwrap_or_else(|| panic!("line {line} should be inside index"));
        assert_eq!(def.symbol_path, "index");
    }
    let def = definition_at_line(source, 1, &PYTHON).unwrap();
    assert_eq!(def.line_span, (1, 4));
}

#[test]
fn python_definition_at_line_and_hash_invariance() {
    let source = "class C:\n    def m(self, a):\n        x = 1\n        return x\n";
    let def = definition_at_line(source, 3, &PYTHON).expect("line 3 inside C::m");
    assert_eq!(def.symbol_path, "C::m");
    assert_eq!(def.node_kind, "method");

    // Identifier renames don't change the Python hash; an arity change does.
    let h = |s: &str| {
        extract_definitions(s, &PYTHON)
            .into_iter()
            .next()
            .unwrap()
            .structural_hash
    };
    assert_eq!(
        h("def f(a):\n    return a\n"),
        h("def renamed(b):\n    return b\n")
    );
    assert_ne!(h("def f(a):\n    pass\n"), h("def f(a, b):\n    pass\n"));
    // Comments and reflowed whitespace stay invariant.
    assert_eq!(
        h("def f(a):\n    return a + 1\n"),
        h("def f(a):\n    # add one\n    return a  +  1\n")
    );
}

#[test]
fn extracts_java_definitions() {
    let source = r#"
package net;

public class Client implements Transport {
    Client(String url) { this.url = url; }
    public boolean connect(int n) { return n > 0; }
}

interface Transport { void send(String x); }

enum Mode { FAST, SLOW }

record Point(int x, int y) {}
"#;
    let defs = extract_definitions(source, &JAVA);
    let by_path: Vec<(&str, &str)> = defs
        .iter()
        .map(|d| (d.symbol_path.as_str(), d.node_kind.as_str()))
        .collect();

    assert!(by_path.contains(&("Client", "class")));
    assert!(
        by_path.contains(&("Client::Client", "method")),
        "constructor"
    );
    assert!(by_path.contains(&("Client::connect", "method")));
    assert!(by_path.contains(&("Transport", "interface")));
    assert!(by_path.contains(&("Transport::send", "method")));
    assert!(by_path.contains(&("Mode", "enum")));
    assert!(by_path.contains(&("Point", "class")));
}

#[test]
fn java_definition_at_line_and_hash_invariance() {
    let source = "class C {\n  void m(int a) {\n    int x = a;\n  }\n}\n";
    let def = definition_at_line(source, 3, &JAVA).expect("line 3 inside C::m");
    assert_eq!(def.symbol_path, "C::m");
    assert_eq!(def.node_kind, "method");

    // Identifier renames don't change the Java hash; an arity change does.
    let h = |s: &str| {
        extract_definitions(s, &JAVA)
            .into_iter()
            .find(|d| d.node_kind == "method")
            .unwrap()
            .structural_hash
    };
    assert_eq!(
        h("class C { int f(int a) { return a; } }"),
        h("class D { int renamed(int b) { return b; } }")
    );
    assert_ne!(
        h("class C { void f(int a) {} }"),
        h("class C { void f(int a, int b) {} }")
    );
}

#[test]
fn extracts_ruby_definitions() {
    let source = r#"
module Net
  class Client
    def connect(n)
      n > 0
    end

    def self.build(url)
      new(url)
    end

    class << self
      def registry
        @registry
      end
    end
  end
end

def helper(a, b)
  a + b
end
"#;
    let defs = extract_definitions(source, &RUBY);
    let by_path: Vec<(&str, &str)> = defs
        .iter()
        .map(|d| (d.symbol_path.as_str(), d.node_kind.as_str()))
        .collect();

    assert!(by_path.contains(&("Net", "module")));
    assert!(by_path.contains(&("Net::Client", "class")));
    assert!(by_path.contains(&("Net::Client::connect", "method")));
    // `self` stays in the path so a class method can't collide with a
    // same-named instance method.
    assert!(by_path.contains(&("Net::Client::self::build", "method")));
    assert!(by_path.contains(&("Net::Client::self::registry", "method")));
    // A top-level `def` has no owner.
    assert!(by_path.contains(&("helper", "function")));
}

#[test]
fn ruby_definition_at_line_and_hash_invariance() {
    let source = "class C\n  def m(a)\n    x = a\n    x\n  end\nend\n";
    let def = definition_at_line(source, 3, &RUBY).expect("line 3 inside C::m");
    assert_eq!(def.symbol_path, "C::m");
    assert_eq!(def.node_kind, "method");

    // Identifier renames don't change the Ruby hash; an arity change does.
    let h = |s: &str| {
        extract_definitions(s, &RUBY)
            .into_iter()
            .find(|d| d.node_kind != "class")
            .unwrap()
            .structural_hash
    };
    assert_eq!(h("def f(a)\n  a\nend\n"), h("def renamed(b)\n  b\nend\n"));
    assert_ne!(h("def f(a)\nend\n"), h("def f(a, b)\nend\n"));
    // Instance-variable renames are identifier renames too.
    assert_eq!(
        h("def f(a)\n  @url = a\nend\n"),
        h("def f(a)\n  @host = a\nend\n")
    );
}

#[test]
fn structural_hash_ignores_identifier_renames() {
    let a = "fn f(x: u32) -> u32 { let y = x + 1; y }";
    let b = "fn renamed(arg: u32) -> u32 { let out = arg + 1; out }";
    assert_eq!(hash_of_single_def(a), hash_of_single_def(b));
}

#[test]
fn structural_hash_distinguishes_arity_and_return() {
    // Same token-shaped bodies but different signatures must not collide
    // (the seed adds arity / return-type presence).
    let no_args = "fn f() { let x = 1; }";
    let one_arg = "fn f(a: u32) { let x = 1; }";
    let two_args = "fn f(a: u32, b: u32) { let x = 1; }";
    assert_ne!(hash_of_single_def(no_args), hash_of_single_def(one_arg));
    assert_ne!(hash_of_single_def(one_arg), hash_of_single_def(two_args));

    let no_ret = "fn f(a: u32) { let x = 1; }";
    let with_ret = "fn f(a: u32) -> u32 { let x = 1; }";
    assert_ne!(hash_of_single_def(no_ret), hash_of_single_def(with_ret));
}

#[test]
fn structural_hash_ignores_whitespace_and_comments() {
    let a = "fn f(x: u32) -> u32 { x + 1 }";
    let b = "fn f(x: u32) -> u32 {\n    // add one\n    x   +   1\n}";
    assert_eq!(hash_of_single_def(a), hash_of_single_def(b));
}

#[test]
fn structural_hash_changes_with_structure_or_literals() {
    let base = "fn f(x: u32) -> u32 { x + 1 }";
    let lit = "fn f(x: u32) -> u32 { x + 2 }";
    let structure = "fn f(x: u32) -> u32 { x * 1 }";
    assert_ne!(hash_of_single_def(base), hash_of_single_def(lit));
    assert_ne!(hash_of_single_def(base), hash_of_single_def(structure));
}

#[test]
fn definition_at_line_picks_innermost() {
    let source = r#"
impl Service {
    fn handle(&self) {
        let x = 1;
    }
}
"#;
    // Line 4 (`let x = 1;`) is inside the method, which is inside the impl.
    let def = definition_at_line(source, 4, &RUST).expect("a definition encloses line 4");
    assert_eq!(def.symbol_path, "Service::handle");
    assert_eq!(def.node_kind, "method");
}

#[test]
fn unparsable_or_empty_yields_no_definitions() {
    assert!(extract_definitions("", &RUST).is_empty());
    assert!(definition_at_line("// just a comment", 1, &RUST).is_none());
}

#[test]
fn the_innermost_of_definitions_on_one_line_is_the_nested_one() {
    let def = definition_at_line("mod m { fn f() {} }", 1, &RUST).unwrap();
    assert_eq!(def.symbol_path, "m::f");
    assert_eq!(def.node_kind, "function");
    assert_eq!(def.line_span, (1, 1));
    // Where the spans differ, the narrower one.
    let source = "mod m {\n    fn f() {}\n}\n";
    assert_eq!(definition_at_line(source, 2, &RUST).unwrap().symbol_path, "m::f");
    assert_eq!(definition_at_line(source, 3, &RUST).unwrap().symbol_path, "m");
}

#[test]
fn comments_among_the_parameters_leave_the_hash() {
    let plain = hash_of_single_def("fn f(a: u32) {}");
    assert_eq!(hash_of_single_def("fn f(a: u32 /* n */) {}"), plain);
    assert_eq!(hash_of_single_def("fn f(/* n */ a: u32) { /* m */ }"), plain);
    assert_eq!(hash_of_single_def("fn f(\n    // n\n    a: u32,\n) {}"), hash_of_single_def("fn f(a: u32,) {}"));
    assert_ne!(hash_of_single_def("fn f(a: u32, b: u32) {}"), plain);
}
