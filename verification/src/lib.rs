//! A translator for the assembly language of a simple sixteen-bit computer:
//! it classifies each source line, resolves labels and variables in two
//! passes over the program, and encodes every instruction as one
//! sixteen-character binary line.

pub mod code;
pub mod config;
pub mod instruction;
pub mod parser;
pub mod text;

use vstd::prelude::*;

use crate::code::generate_code;
use crate::code::spec_output;
use crate::instruction::spec_default_symbols;
use crate::parser::Parser;
use crate::parser::lemma_real_count_mono;
use crate::parser::lemma_resolve_independent_of_first_pass;
use crate::parser::no_symbolic_operands;
use crate::parser::real_count;
use crate::parser::run_pass;
use crate::parser::spec_resolve;
use crate::parser::total_real;
use crate::text::clean_line;
use crate::text::spec_lines;
use crate::text::split_lines;
use crate::text::str_views;

verus! {

/// The output text of a whole translation: both resolver passes, then one
/// binary line per remaining instruction.
pub open spec fn spec_assemble(src: Seq<char>) -> Seq<char> {
    spec_output(spec_resolve(spec_lines(src), 16).emitted)
}

/// Translates a whole source text. The bound on the instruction count keeps
/// the sixteen-bit instruction counter and variable addresses from
/// overflowing.
pub fn assemble(source: &str) -> (r: String)
    requires
        total_real(source@) <= 65519,
    ensures
        r@ == spec_assemble(source@),
{
    let parser = Parser::new(source);
    let result = parser.parse();
    generate_code(result)
}

/// Whether the source holds few enough real instructions for `assemble`.
pub fn within_limit(source: &str) -> (r: bool)
    ensures
        r == (total_real(source@) <= 65519),
{
    let ghost lspec = spec_lines(source@);
    let lines = split_lines(source);
    let mut count: usize = 0;
    let mut i: usize = 0;
    while i < lines.len()
        invariant
            0 <= i <= lines.len(),
            str_views(lines@) == lspec,
            lspec == spec_lines(source@),
            lines@.len() == lspec.len(),
            count as int == real_count(lspec, i as int),
            count <= 65519,
        decreases lines.len() - i,
    {
        proof {
            assert(str_views(lines@)[i as int] == lines@[i as int]@);
        }
        let c = clean_line(lines[i]);
        let n = c.unicode_len();
        let occupies = n > 0 && !(n >= 2 && c.get_char(0) == '(' && c.get_char(n - 1) == ')');
        if occupies {
            count = count + 1;
            if count > 65519 {
                proof {
                    lemma_real_count_mono(lspec, i + 1, lspec.len() as int);
                }
                return false;
            }
        }
        i = i + 1;
    }
    true
}

/// On a program whose address instructions all carry numeric operands, the
/// output of the full pipeline does not depend on the label-collection pass:
/// a single emission pass over the default symbols yields the same text.
pub proof fn lemma_output_independent_of_first_pass(src: Seq<char>)
    requires
        no_symbolic_operands(spec_lines(src)),
    ensures
        spec_assemble(src) == spec_output(
            run_pass(spec_lines(src), spec_default_symbols(), 16, false).emitted,
        ),
{
    lemma_resolve_independent_of_first_pass(spec_lines(src), 16);
}

/// Translates a source text of any size: `None` when it holds too many real
/// instructions for the sixteen-bit counters.
pub fn assemble_checked(source: &str) -> (r: Option<String>)
    ensures
        (r is Some) == (total_real(source@) <= 65519),
        r matches Some(out) ==> out@ == spec_assemble(source@),
{
    if within_limit(source) {
        Option::Some(assemble(source))
    } else {
        Option::None
    }
}

} // verus!
