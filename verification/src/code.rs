//! The code generator: each resolved command becomes one sixteen-character
//! binary line.

use vstd::prelude::*;

use crate::instruction::AInstAddress;
use crate::instruction::Instruction;
use crate::instruction::SpecInst;
use crate::instruction::spec_comp_bits;
use crate::instruction::spec_dest_bits;
use crate::instruction::spec_jump_bits;
use crate::parser::ParseResult;
use crate::parser::SpecCommand;
use crate::parser::cmd_views;

verus! {

/// The character of one binary digit.
pub open spec fn bit_char(b: nat) -> char {
    if b == 1 {
        '1'
    } else {
        '0'
    }
}

/// The binary digits of `v`, zero-padded on the left to at least `w` digits.
pub open spec fn spec_bin(v: nat, w: nat) -> Seq<char>
    decreases v + w,
{
    if v <= 1 && w <= 1 {
        seq![bit_char(v)]
    } else {
        spec_bin(v / 2, if w == 0 {
            0
        } else {
            (w - 1) as nat
        }).push(bit_char(v % 2))
    }
}

/// Appends the binary digits of `v`, zero-padded to at least `w` digits.
fn append_bin(out: &mut String, v: u16, w: usize)
    ensures
        final(out)@ == old(out)@ + spec_bin(v as nat, w as nat),
    decreases v + w,
{
    if v <= 1 && w <= 1 {
        proof {
            reveal_strlit("0");
            reveal_strlit("1");
            assert("0"@ =~= seq!['0']);
            assert("1"@ =~= seq!['1']);
        }
        if v == 0 {
            out.append("0");
        } else {
            out.append("1");
        }
        proof {
            assert(old(out)@ + seq![bit_char(v as nat)] =~= out@);
        }
    } else {
        let half = v / 2;
        let w2 = if w == 0 {
            0
        } else {
            w - 1
        };
        append_bin(out, half, w2);
        proof {
            reveal_strlit("0");
            reveal_strlit("1");
            assert("0"@ =~= seq!['0']);
            assert("1"@ =~= seq!['1']);
        }
        if v % 2 == 0 {
            out.append("0");
        } else {
            out.append("1");
        }
        proof {
            assert(old(out)@ + (spec_bin((v / 2) as nat, (if w == 0 {
                0
            } else {
                (w - 1) as int
            }) as nat)).push(bit_char((v % 2) as nat)) =~= out@);
        }
    }
}

/// The sixteen-character encoding of a resolved instruction: an address
/// instruction is `0` and fifteen address digits; a compute instruction is
/// `111`, seven computation digits, three destination digits and three jump
/// digits. A label definition or an unresolved name has no encoding.
pub open spec fn spec_encode(i: SpecInst) -> Option<Seq<char>> {
    match i {
        SpecInst::AAddr { address } => Option::Some("0"@ + spec_bin(address as nat, 15)),
        SpecInst::CInst { comp, dest, jump } => Option::Some(
            "111"@ + spec_comp_bits(comp) + spec_dest_bits(dest) + spec_jump_bits(jump),
        ),
        SpecInst::ALabel { name } => Option::None,
        SpecInst::LDef { label } => Option::None,
    }
}

/// The output line of one command: its encoding and a line break, or nothing.
pub open spec fn spec_line_of(c: SpecCommand) -> Seq<char> {
    match spec_encode(c.inst) {
        Option::Some(e) => e + "\n"@,
        Option::None => Seq::empty(),
    }
}

/// The output text of the commands from index `i` on.
pub open spec fn spec_output_from(cmds: Seq<SpecCommand>, i: int) -> Seq<char>
    decreases cmds.len() - i,
{
    if i < 0 || i >= cmds.len() {
        Seq::empty()
    } else {
        spec_line_of(cmds[i]) + spec_output_from(cmds, i + 1)
    }
}

/// The output text of a resolved command sequence.
pub open spec fn spec_output(cmds: Seq<SpecCommand>) -> Seq<char> {
    spec_output_from(cmds, 0)
}

/// The encoding of one instruction with its line break, or nothing for a
/// shape that the resolver should have consumed.
fn generate(inst: &Instruction) -> (r: Option<String>)
    ensures
        (match r {
            Option::Some(s) => Option::Some(s@),
            Option::None => Option::None,
        }) == (match spec_encode(inst@) {
            Option::Some(e) => Option::Some(e + "\n"@),
            Option::None => Option::None::<Seq<char>>,
        }),
{
    match inst {
        Instruction::AInstruction { address: AInstAddress::Address(address) } => {
            let mut s = String::new();
            s.append("0");
            append_bin(&mut s, *address, 15);
            s.append("\n");
            Option::Some(s)
        },
        Instruction::CInstruction { comp, dest, jump } => {
            let mut s = String::new();
            s.append("111");
            s.append(comp.fmt_binary());
            s.append(dest.bits());
            s.append(jump.bits());
            s.append("\n");
            Option::Some(s)
        },
        _ => Option::None,
    }
}

/// The output text of a resolution result: one line per slot-occupying
/// command, in order.
pub fn generate_code(parse_result: ParseResult) -> (r: String)
    ensures
        r@ == spec_output(cmd_views(parse_result.commands@)),
{
    let ghost cmds = cmd_views(parse_result.commands@);
    let mut out = String::new();
    let n = parse_result.commands.len();
    let mut i: usize = 0;
    let commands = parse_result.commands;
    while i < n
        invariant
            0 <= i <= n,
            n == commands@.len(),
            cmds == cmd_views(commands@),
            cmds.len() == n,
            out@ + spec_output_from(cmds, i as int) == spec_output_from(cmds, 0),
        decreases n - i,
    {
        let ghost before = out@;
        match generate(&commands[i].inst) {
            Option::Some(line) => {
                out.append(line.as_str());
            },
            Option::None => {},
        }
        proof {
            assert(cmd_views(commands@)[i as int] == commands@[i as int]@);
            assert(out@ =~= before + spec_line_of(cmds[i as int]));
            assert(before + spec_line_of(cmds[i as int]) + spec_output_from(cmds, i + 1) =~= before
                + spec_output_from(cmds, i as int));
        }
        i = i + 1;
    }
    proof {
        assert(out@ + Seq::<char>::empty() =~= out@);
    }
    out
}

} // verus!
