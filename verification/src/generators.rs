//! Code generation interfaces: the generator trait that backends implement,
//! the error type they report, and a small Python backend that renders
//! class scaffolding into an internal buffer.

use vstd::prelude::*;
use vstd::string::*;
use crate::ast::OnyxModule;
use crate::text::{char_repeat, spec_repeat};

verus! {

/// Minimal error type for compilation/generation failures.
#[derive(Debug)]
pub struct CompileError(pub String);

impl CompileError {
    /// The error message.
    pub fn message(&self) -> (r: &str)
        ensures
            r@ == self.0@,
    {
        self.0.as_str()
    }
}

/// A code generator translates a resolved module into target-language code.
pub trait CodeGenerator {
    /// Translates the module into generated files, each a pair of a relative
    /// file path and the file's content.
    fn generate(&mut self, module: &OnyxModule) -> Result<Vec<(String, String)>, CompileError>;
}

/// Configuration settings for Python code generation.
#[derive(Debug, Clone)]
pub struct PythonConfig {
    /// Number of spaces per indentation level.
    pub indent_spaces: u8,
    /// Whether to use double quotes rather than single quotes.
    pub use_double_quotes: bool,
    /// Maximum line length for wrapping.
    pub max_line_length: usize,
}

impl Default for PythonConfig {
    /// Four-space indentation, double quotes, 88-column lines.
    fn default() -> (r: Self)
        ensures
            r.indent_spaces == 4,
            r.use_double_quotes,
            r.max_line_length == 88,
    {
        PythonConfig { indent_spaces: 4, use_double_quotes: true, max_line_length: 88 }
    }
}

/// One indented line of generated code: the indentation for the level, the
/// content, and a newline.
pub open spec fn spec_py_line(cfg: PythonConfig, level: nat, content: Seq<char>) -> Seq<char> {
    spec_repeat(' ', level * cfg.indent_spaces as nat) + content + "\n"@
}

/// The base list rendered after a class name: empty when there are no
/// bases, else the names joined by commas inside parentheses.
pub open spec fn spec_join_comma(ns: Seq<Seq<char>>) -> Seq<char>
    decreases ns.len(),
{
    if ns.len() == 0 {
        Seq::empty()
    } else if ns.len() == 1 {
        ns[0]
    } else {
        spec_join_comma(ns.drop_last()) + ", "@ + ns.last()
    }
}

/// The docstring quote the configuration selects.
pub open spec fn spec_quote(cfg: PythonConfig) -> Seq<char> {
    if cfg.use_double_quotes {
        "\"\"\""@
    } else {
        "'''"@
    }
}

/// The full text [`PythonGenerator::generate_class`] emits for a class with
/// the given name and bases, starting at the given indentation level.
pub open spec fn spec_class_text(
    cfg: PythonConfig,
    level: nat,
    name: Seq<char>,
    bases: Seq<Seq<char>>,
) -> Seq<char> {
    let base_list = if bases.len() == 0 {
        Seq::<char>::empty()
    } else {
        "("@ + spec_join_comma(bases) + ")"@
    };
    spec_py_line(cfg, level, "class "@ + name + base_list + ":"@) + spec_py_line(
        cfg,
        level + 1,
        spec_quote(cfg) + "A generated Python class."@ + spec_quote(cfg) + "\n"@,
    ) + spec_py_line(cfg, level + 1, "def __init__(self, value):"@) + spec_py_line(
        cfg,
        level + 2,
        "self.value = value"@,
    ) + spec_py_line(cfg, level + 1, "\ndef get_value(self):"@) + spec_py_line(
        cfg,
        level + 2,
        "return self.value"@,
    )
}

/// A Python code generator that renders into an internal buffer.
pub struct PythonGenerator {
    /// The configuration settings for the generated code.
    config: PythonConfig,
    /// The buffer the generated code is written into.
    out: String,
    /// The current indentation level.
    current_indent_level: u8,
}

impl PythonGenerator {
    /// The generated text so far.
    pub closed spec fn spec_output(self) -> Seq<char> {
        self.out@
    }

    /// The current indentation level.
    pub closed spec fn spec_indent(self) -> nat {
        self.current_indent_level as nat
    }

    /// The generator's configuration.
    pub closed spec fn spec_config(self) -> PythonConfig {
        self.config
    }

    /// Creates a new generator with the given configuration, or the default
    /// configuration if none is given.
    pub fn new(config: Option<PythonConfig>) -> (r: Self)
        ensures
            r.spec_output() == Seq::<char>::empty(),
            r.spec_indent() == 0,
            match config {
                Some(c) => r.spec_config() == c,
                None => r.spec_config().indent_spaces == 4 && r.spec_config().use_double_quotes
                    && r.spec_config().max_line_length == 88,
            },
    {
        let config = match config {
            Some(c) => c,
            None => PythonConfig::default(),
        };
        PythonGenerator { config, out: String::new(), current_indent_level: 0 }
    }

    /// The generated text.
    pub fn output(&self) -> (r: &str)
        ensures
            r@ == self.spec_output(),
    {
        self.out.as_str()
    }

    /// Writes one line at the current indentation level.
    fn write_line(&mut self, content: &str)
        ensures
            final(self).spec_output() == old(self).spec_output() + spec_py_line(
                old(self).spec_config(),
                old(self).spec_indent(),
                content@,
            ),
            final(self).spec_indent() == old(self).spec_indent(),
            final(self).spec_config() == old(self).spec_config(),
    {
        proof {
            assert((self.current_indent_level as nat) * (self.config.indent_spaces as nat)
                <= 65025) by (nonlinear_arith)
                requires
                    self.current_indent_level <= 255,
                    self.config.indent_spaces <= 255,
            ;
        }
        let width = (self.current_indent_level as usize) * (self.config.indent_spaces as usize);
        let indent = char_repeat(' ', width);
        self.out.append(indent.as_str());
        self.out.append(content);
        self.out.append("\n");
        proof {
            assert(self.out@ =~= old(self).out@ + spec_py_line(
                old(self).config,
                old(self).current_indent_level as nat,
                content@,
            ));
        }
    }

    /// Increases the current indentation level.
    pub fn increase_indent(&mut self)
        requires
            old(self).spec_indent() < 255,
        ensures
            final(self).spec_indent() == old(self).spec_indent() + 1,
            final(self).spec_output() == old(self).spec_output(),
            final(self).spec_config() == old(self).spec_config(),
    {
        self.current_indent_level = self.current_indent_level + 1;
    }

    /// Decreases the current indentation level, stopping at zero.
    pub fn decrease_indent(&mut self)
        ensures
            final(self).spec_indent() == if old(self).spec_indent() > 0 {
                old(self).spec_indent() - 1
            } else {
                0
            },
            final(self).spec_output() == old(self).spec_output(),
            final(self).spec_config() == old(self).spec_config(),
    {
        if self.current_indent_level > 0 {
            self.current_indent_level = self.current_indent_level - 1;
        }
    }

    /// Generates a simple Python class definition with the given name and
    /// base classes, leaving the indentation level as it was.
    pub fn generate_class(&mut self, name: &str, bases: &Vec<String>) -> (r: Result<
        (),
        CompileError,
    >)
        requires
            old(self).spec_indent() + 2 <= 255,
        ensures
            r is Ok,
            final(self).spec_indent() == old(self).spec_indent(),
            final(self).spec_config() == old(self).spec_config(),
            final(self).spec_output() == old(self).spec_output() + spec_class_text(
                old(self).spec_config(),
                old(self).spec_indent(),
                name@,
                crate::resolver::names_of(bases@),
            ),
    {
        let mut header = String::from_str("class ");
        header.append(name);
        if bases.len() > 0 {
            header.append("(");
            let n = bases.len();
            let mut i: usize = 0;
            let mut joined = String::new();
            while i < n
                invariant
                    n == bases@.len(),
                    i <= n,
                    joined@ == spec_join_comma(crate::resolver::names_of(bases@).subrange(
                        0,
                        i as int,
                    )),
                decreases n - i,
            {
                if i > 0 {
                    joined.append(", ");
                }
                joined.append(bases[i].as_str());
                proof {
                    let ns = crate::resolver::names_of(bases@);
                    assert(ns[i as int] == bases@[i as int]@);
                    if i == 0 {
                        assert(joined@ =~= ns.subrange(0, 1)[0]);
                    } else {
                        assert(ns.subrange(0, i as int + 1).drop_last() =~= ns.subrange(
                            0,
                            i as int,
                        ));
                        assert(ns.subrange(0, i as int + 1).last() == ns[i as int]);
                    }
                }
                i = i + 1;
            }
            proof {
                assert(crate::resolver::names_of(bases@).subrange(0, n as int)
                    =~= crate::resolver::names_of(bases@));
            }
            header.append(joined.as_str());
            header.append(")");
        }
        header.append(":");
        proof {
            let ns = crate::resolver::names_of(bases@);
            if bases@.len() == 0 {
                assert(header@ =~= "class "@ + name@ + Seq::<char>::empty() + ":"@);
            } else {
                assert(header@ =~= "class "@ + name@ + ("("@ + spec_join_comma(ns) + ")"@)
                    + ":"@);
            }
        }
        self.write_line(header.as_str());
        self.increase_indent();
        // The docstring.
        let quote = if self.config.use_double_quotes {
            "\"\"\""
        } else {
            "'''"
        };
        let mut doc = String::from_str(quote);
        doc.append("A generated Python class.");
        doc.append(quote);
        doc.append("\n");
        proof {
            assert(doc@ =~= spec_quote(old(self).config) + "A generated Python class."@
                + spec_quote(old(self).config) + "\n"@);
        }
        self.write_line(doc.as_str());
        // The initializer.
        self.write_line("def __init__(self, value):");
        self.increase_indent();
        self.write_line("self.value = value");
        self.decrease_indent();
        // A placeholder accessor.
        self.write_line("\ndef get_value(self):");
        self.increase_indent();
        self.write_line("return self.value");
        self.decrease_indent();
        self.decrease_indent();
        proof {
            assert(final(self).spec_output() =~= old(self).spec_output() + spec_class_text(
                old(self).spec_config(),
                old(self).spec_indent(),
                name@,
                crate::resolver::names_of(bases@),
            ));
        }
        Ok(())
    }
}

impl CodeGenerator for PythonGenerator {
    /// Produces the generated files for a module. This backend renders only
    /// through [`PythonGenerator::generate_class`]; the module-level pass
    /// emits no files yet.
    fn generate(&mut self, _module: &OnyxModule) -> Result<Vec<(String, String)>, CompileError> {
        Ok(Vec::new())
    }
}

} // verus!
