use onyx::generators::{CodeGenerator, PythonConfig, PythonGenerator};
use onyx::parser::Parser;

#[test]
fn test_generate_class_no_bases() {
    let mut g = PythonGenerator::new(None);
    g.generate_class("Foo", &vec![]).unwrap();
    let expected = "class Foo:\n    \"\"\"A generated Python class.\"\"\"\n\n    def __init__(self, value):\n        self.value = value\n    \ndef get_value(self):\n        return self.value\n";
    assert_eq!(g.output(), expected);
}

#[test]
fn test_generate_class_with_bases() {
    let mut g = PythonGenerator::new(None);
    g.generate_class("Foo", &vec!["Base".to_string(), "Mixin".to_string()]).unwrap();
    assert!(g.output().starts_with("class Foo(Base, Mixin):\n"));
}

#[test]
fn test_generate_class_single_quotes() {
    let config = PythonConfig { indent_spaces: 2, use_double_quotes: false, max_line_length: 88 };
    let mut g = PythonGenerator::new(Some(config));
    g.generate_class("Bar", &vec![]).unwrap();
    assert!(g.output().contains("'''A generated Python class.'''"));
    assert!(g.output().contains("  def __init__(self, value):"));
}

#[test]
fn test_indent_tracking() {
    let mut g = PythonGenerator::new(None);
    g.decrease_indent(); // stays at zero
    g.increase_indent();
    g.generate_class("Inner", &vec![]).unwrap();
    assert!(g.output().starts_with("    class Inner:\n"));
}

#[test]
fn test_generate_trait_returns_no_files() {
    let module = Parser::new("struct S { f u8, }").unwrap().parse_module().unwrap();
    let mut g = PythonGenerator::new(None);
    let files = g.generate(&module).unwrap();
    assert!(files.is_empty());
}
