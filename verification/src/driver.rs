//! The compiler pipeline: parse a source file, then lower it to the UI IR.

use vstd::prelude::*;
use vstd::string::StringSliceAdditionalSpecFns;
use crate::ir::UiIr;
use crate::ast::Ast;
use crate::parser::{parse, parsed_from, source_parses, ParseError};
use crate::ir::text::{deps_cover, format_screen_ir, screen_ir_text};
use crate::sema::{diag_views, lowered_file, screen_ok, Compiler, DiagView, Diagnostic, FloatValue};
use crate::span::{FileId, Interner};

verus! {

/// A compiled file: its IR, the text form of its first screen, and the table
/// its symbols index into.
pub struct CompileResult {
    pub ir: UiIr,
    pub ir_text: String,
    pub interner: Interner,
}

/// The text `flash ir` prints for a compiled file: that of its first screen,
/// or nothing when it has none.
pub open spec fn ir_text_of(ir: UiIr, strs: Seq<Seq<u8>>) -> Seq<char> {
    if ir.screens@.len() > 0 {
        screen_ir_text(ir.screens@[0], strs)
    } else {
        Seq::empty()
    }
}

/// Why a file did not compile.
#[derive(Debug)]
pub enum CompileError {
    Parse(Vec<ParseError>),
    Semantic(Vec<Diagnostic>),
}

/// Whether `ir`, with the names `strs`, is what lowering gives for an AST
/// that parsing `source` gives, on a compiler holding the float values
/// `floats` and no diagnostic yet, when lowering reports no error.
pub open spec fn lowers_to(source: Seq<u8>, floats: Seq<FloatValue>, ir: UiIr, strs: Seq<Seq<u8>>) -> bool {
    exists|ast: Ast, strs0: Seq<Seq<u8>>, ds: Seq<DiagView>|
        parsed_from(source, FileId(0), ast, strs0) && #[trigger] lowered_file(
            ast,
            strs0,
            floats,
            Seq::empty(),
            ds,
            strs,
            Some(ir),
        )
}

/// Whether `ds` are the diagnostics that lowering reports, an error among
/// them, for an AST that parsing `source` gives, on a compiler holding the
/// float values `floats` and no diagnostic yet.
pub open spec fn lowering_fails_with(source: Seq<u8>, floats: Seq<FloatValue>, ds: Seq<DiagView>) -> bool {
    exists|ast: Ast, strs0: Seq<Seq<u8>>, strs: Seq<Seq<u8>>|
        parsed_from(source, FileId(0), ast, strs0) && #[trigger] lowered_file(ast, strs0, floats, Seq::empty(), ds, strs, None)
}

/// What compiling `source`, with `floats` as the values of its float
/// literals, may give. A file whose tokens are not items of the grammar
/// gives its parse errors, at least one. Any other file is lowered from the
/// AST and the names that `parse` gives for it: when lowering reports no
/// error, the result is its IR and names; otherwise it is all of lowering's
/// diagnostics.
pub open spec fn compiled_as(source: Seq<u8>, floats: Seq<FloatValue>, r: Result<CompileResult, CompileError>) -> bool {
    match r {
        Err(CompileError::Parse(errors)) => !source_parses(source, FileId(0)) && errors@.len() > 0,
        Ok(res) => source_parses(source, FileId(0)) && lowers_to(source, floats, res.ir, res.interner@),
        Err(CompileError::Semantic(diags)) => source_parses(source, FileId(0)) && lowering_fails_with(
            source,
            floats,
            diag_views(diags@),
        ),
    }
}

/// Compiles `source`, with `floats` giving the values of its float literals:
/// it parses the file, and lowers what it parsed.
pub fn compile(source: &str, floats: Vec<FloatValue>) -> (r: Result<CompileResult, CompileError>)
    requires
        source.spec_bytes().len() < i32::MAX,
    ensures
        compiled_as(source.spec_bytes(), floats@, r),
        r matches Ok(res) ==> res.ir_text@ == ir_text_of(res.ir, res.interner@),
{
    let file = FileId(0);
    let mut parsed = match parse(source, file) {
        Ok(p) => p,
        Err(errors) => return Err(CompileError::Parse(errors)),
    };
    let ghost floats0 = floats@;
    let mut compiler = Compiler::new();
    let mut rest = floats;
    proof {
        assert(compiler.float_table() + rest@ =~= floats0);
    }
    while rest.len() > 0
        invariant
            parsed_from(source.spec_bytes(), file, parsed.ast, parsed.interner@),
            compiler.float_table() + rest@ == floats0,
            compiler.diags() == Seq::<DiagView>::empty(),
        decreases rest@.len(),
    {
        let ghost ft = compiler.float_table();
        let ghost r0 = rest@;
        let f = rest.remove(0);
        compiler.define_float(f.literal, f.value);
        proof {
            assert(compiler.float_table() + rest@ =~= ft + r0);
        }
    }
    proof {
        assert(compiler.float_table() =~= floats0);
    }
    let ghost strs0 = parsed.interner@;
    let ghost ast = parsed.ast;
    match compiler.compile(&parsed.ast, &mut parsed.interner) {
        Some(ir) => {
            let ir_text = if ir.screens.len() > 0 {
                proof {
                    assert(screen_ok(ir.screens@[0]));
                    assert(deps_cover(ir.screens@[0]));
                }
                format_screen_ir(&ir.screens[0], &parsed.interner)
            } else {
                String::new()
            };
            let res = CompileResult { ir, ir_text, interner: parsed.interner };
            proof {
                assert(parsed_from(source.spec_bytes(), FileId(0), ast, strs0));
                assert(lowered_file(ast, strs0, floats0, Seq::empty(), compiler.diags(), res.interner@, Some(res.ir)));
                assert(lowers_to(source.spec_bytes(), floats0, res.ir, res.interner@));
            }
            let r = Ok(res);
            assert(compiled_as(source.spec_bytes(), floats0, r));
            r
        },
        None => {
            let ghost strs = parsed.interner@;
            let diags = compiler.into_diagnostics();
            proof {
                assert(parsed_from(source.spec_bytes(), FileId(0), ast, strs0));
                assert(lowered_file(ast, strs0, floats0, Seq::empty(), diag_views(diags@), strs, None));
                assert(lowering_fails_with(source.spec_bytes(), floats0, diag_views(diags@)));
            }
            let r = Err(CompileError::Semantic(diags));
            assert(compiled_as(source.spec_bytes(), floats0, r));
            r
        },
    }
}

} // verus!
