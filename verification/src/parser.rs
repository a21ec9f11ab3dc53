//! Line classification and two-pass symbol resolution.
//!
//! The mathematical model is a fold: `spec_decode` reads one line against a
//! symbol map, `spec_step` advances a pass state by one line, and `state_at`
//! folds a pass over the first `k` lines. Pass one collects label addresses;
//! pass two allocates variable addresses and emits the resolved sequence.

use vstd::prelude::*;

use crate::instruction::AInstAddress;
use crate::instruction::Comp;
use crate::instruction::Dest;
use crate::instruction::Instruction;
use crate::instruction::Jump;
use crate::instruction::SpecInst;
use crate::instruction::SymbolTable;
use crate::instruction::default_symbols;
use crate::instruction::spec_default_symbols;
use crate::instruction::make_comp;
use crate::text::clean_line;
use crate::text::clean_of;
use crate::text::find_char;
use crate::text::find_char_str;
use crate::text::lemma_find_char;
use crate::text::parse_u16_str;
use crate::text::spec_lines;
use crate::text::spec_parse_u16;
use crate::text::split_lines;
use crate::text::str_eq;
use crate::text::str_views;

verus! {

/// A decoded instruction together with the cleaned source text it came from.
#[derive(Debug)]
pub struct Command {
    pub inst: Instruction,
    pub raw: String,
}

/// The mathematical shape of a command.
pub struct SpecCommand {
    pub inst: SpecInst,
    pub raw: Seq<char>,
}

impl View for Command {
    type V = SpecCommand;

    open spec fn view(&self) -> SpecCommand {
        SpecCommand { inst: self.inst@, raw: self.raw@ }
    }
}

/// The views of a sequence of commands.
pub open spec fn cmd_views(s: Seq<Command>) -> Seq<SpecCommand> {
    s.map_values(|c: Command| c@)
}

/// The commands that occupy instruction slots, with the final instruction
/// count.
#[derive(Debug)]
pub struct ParseResult {
    pub commands: Vec<Command>,
    pub inst_counter: u16,
}

/// The destination set that a destination token names; an absent or unknown
/// token means no destination.
pub open spec fn spec_dest_of(t: Option<Seq<char>>) -> Dest {
    match t {
        Option::Some(s) => {
            if s == "M"@ {
                Dest::M
            } else if s == "D"@ {
                Dest::D
            } else if s == "MD"@ {
                Dest::MD
            } else if s == "A"@ {
                Dest::A
            } else if s == "AM"@ {
                Dest::AM
            } else if s == "AD"@ {
                Dest::AD
            } else if s == "AMD"@ {
                Dest::AMD
            } else {
                Dest::Null
            }
        },
        Option::None => Dest::Null,
    }
}

/// The jump condition that a jump token names; an absent or unknown token
/// means no jump.
pub open spec fn spec_jump_of(t: Option<Seq<char>>) -> Jump {
    match t {
        Option::Some(s) => {
            if s == "JGT"@ {
                Jump::JGT
            } else if s == "JEQ"@ {
                Jump::JEQ
            } else if s == "JGE"@ {
                Jump::JGE
            } else if s == "JLT"@ {
                Jump::JLT
            } else if s == "JNE"@ {
                Jump::JNE
            } else if s == "JLE"@ {
                Jump::JLE
            } else if s == "JMP"@ {
                Jump::JMP
            } else {
                Jump::Null
            }
        },
        Option::None => Jump::Null,
    }
}

/// How a cleaned line that is neither an address instruction nor a label
/// definition reads as a compute instruction: the text before `=` is the
/// destination token, the text after `;` is the jump token, and what remains
/// is the computation.
pub open spec fn spec_c_inst(c: Seq<char>) -> SpecInst {
    let e = find_char(c, '=');
    let dtok: Option<Seq<char>> = if e < c.len() {
        Option::Some(c.subrange(0, e))
    } else {
        Option::None
    };
    let rest = if e < c.len() {
        c.subrange(e + 1, c.len() as int)
    } else {
        c
    };
    let sc = find_char(rest, ';');
    let jtok: Option<Seq<char>> = if sc < rest.len() {
        Option::Some(rest.subrange(sc + 1, rest.len() as int))
    } else {
        Option::None
    };
    let comp = if sc < rest.len() {
        rest.subrange(0, sc)
    } else {
        rest
    };
    SpecInst::CInst { comp, dest: spec_dest_of(dtok), jump: spec_jump_of(jtok) }
}

/// How a name that is not a small number resolves: through the symbol map
/// when it is bound there, otherwise it stays unresolved.
pub open spec fn spec_name_resolution(name: Seq<char>, m: Map<Seq<char>, u16>) -> SpecInst {
    if m.contains_key(name) {
        SpecInst::AAddr { address: m[name] }
    } else {
        SpecInst::ALabel { name }
    }
}

/// How an address-instruction operand reads: a numeric value up to the
/// fifteen-bit maximum resolves to itself; any other name goes through the
/// symbol map.
pub open spec fn spec_a_inst(name: Seq<char>, m: Map<Seq<char>, u16>) -> SpecInst {
    match spec_parse_u16(name) {
        Option::Some(v) => {
            if v <= 32767 {
                SpecInst::AAddr { address: v }
            } else {
                spec_name_resolution(name, m)
            }
        },
        Option::None => spec_name_resolution(name, m),
    }
}

/// What one source line decodes to against the symbol map `m`: nothing for a
/// blank or comment-only line, an address instruction (resolved through a
/// numeric operand or the map, otherwise unresolved), a label definition, or
/// a compute instruction.
pub open spec fn spec_decode(l: Seq<char>, m: Map<Seq<char>, u16>) -> Option<SpecCommand> {
    let c = clean_of(l);
    if c.len() == 0 {
        Option::None
    } else if c[0] == '@' {
        let name = c.subrange(1, c.len() as int);
        Option::Some(SpecCommand { inst: spec_a_inst(name, m), raw: c })
    } else if c.len() >= 2 && c[0] == '(' && c.last() == ')' {
        Option::Some(SpecCommand { inst: SpecInst::LDef { label: c.subrange(1, c.len() - 1) }, raw: c })
    } else {
        Option::Some(SpecCommand { inst: spec_c_inst(c), raw: c })
    }
}

/// Whether a line defines a label.
pub open spec fn is_label_line(l: Seq<char>) -> bool {
    let c = clean_of(l);
    c.len() >= 2 && c[0] == '(' && c.last() == ')'
}

/// Whether a line occupies an instruction slot.
pub open spec fn is_real_line(l: Seq<char>) -> bool {
    clean_of(l).len() > 0 && !is_label_line(l)
}

/// How many of the first `k` lines occupy instruction slots.
pub open spec fn real_count(lines: Seq<Seq<char>>, k: int) -> int
    decreases k,
{
    if k <= 0 {
        0
    } else {
        real_count(lines, k - 1) + if is_real_line(lines[k - 1]) {
            1int
        } else {
            0int
        }
    }
}

/// How many lines of a source text occupy instruction slots.
pub open spec fn total_real(src: Seq<char>) -> int {
    real_count(spec_lines(src), spec_lines(src).len() as int)
}

pub proof fn lemma_real_count_mono(lines: Seq<Seq<char>>, a: int, b: int)
    requires
        a <= b,
    ensures
        real_count(lines, a) <= real_count(lines, b),
    decreases b - a,
{
    if a < b {
        lemma_real_count_mono(lines, a, b - 1);
    }
}

pub proof fn lemma_real_count_nonneg(lines: Seq<Seq<char>>, k: int)
    ensures
        real_count(lines, k) >= 0,
    decreases k,
{
    if k > 0 {
        lemma_real_count_nonneg(lines, k - 1);
    }
}

/// The state a resolution pass threads through the lines.
pub struct PassState {
    /// The symbol map so far.
    pub symbols: Map<Seq<char>, u16>,
    /// How many instruction slots have been filled.
    pub count: int,
    /// The next free variable address.
    pub var_next: int,
    /// The slot-occupying commands emitted so far, in order.
    pub emitted: Seq<SpecCommand>,
    /// The variable names allocated so far, in first-encounter order.
    pub allocs: Seq<Seq<char>>,
}

/// One line advances the pass state: a label definition binds the label to
/// the current count, unless the name is already bound — the first writer
/// wins, and a predefined name is never overwritten; in pass two an
/// unresolved name is bound to the next free variable address and emitted
/// resolved; every other decoded command is emitted as it is.
pub open spec fn spec_step(st: PassState, l: Seq<char>, first: bool) -> PassState {
    match spec_decode(l, st.symbols) {
        Option::None => st,
        Option::Some(cmd) => match cmd.inst {
            SpecInst::LDef { label } => {
                if st.symbols.contains_key(label) {
                    st
                } else {
                    PassState { symbols: st.symbols.insert(label, st.count as u16), ..st }
                }
            },
            SpecInst::ALabel { name } => {
                if first {
                    PassState { count: st.count + 1, emitted: st.emitted.push(cmd), ..st }
                } else {
                    PassState {
                        symbols: st.symbols.insert(name, st.var_next as u16),
                        count: st.count + 1,
                        var_next: st.var_next + 1,
                        emitted: st.emitted.push(
                            SpecCommand {
                                inst: SpecInst::AAddr { address: st.var_next as u16 },
                                raw: cmd.raw,
                            },
                        ),
                        allocs: st.allocs.push(name),
                    }
                }
            },
            _ => (PassState { count: st.count + 1, emitted: st.emitted.push(cmd), ..st }),
        },
    }
}

/// The pass state after the first `k` lines.
pub open spec fn state_at(lines: Seq<Seq<char>>, k: int, st0: PassState, first: bool) -> PassState
    decreases k,
{
    if k <= 0 {
        st0
    } else {
        spec_step(state_at(lines, k - 1, st0, first), lines[k - 1], first)
    }
}

/// A fresh pass state over the symbol map `m`.
pub open spec fn init_state(m: Map<Seq<char>, u16>, var0: int) -> PassState {
    PassState { symbols: m, count: 0, var_next: var0, emitted: Seq::empty(), allocs: Seq::empty() }
}

/// A whole pass over the lines, from a fresh state over `m`.
pub open spec fn run_pass(lines: Seq<Seq<char>>, m: Map<Seq<char>, u16>, var0: int, first: bool) -> PassState {
    state_at(lines, lines.len() as int, init_state(m, var0), first)
}

/// Both passes: label collection over the default symbols, then variable
/// allocation and emission over the completed map.
pub open spec fn spec_resolve(lines: Seq<Seq<char>>, var0: int) -> PassState {
    let st1 = run_pass(lines, spec_default_symbols(), var0, true);
    run_pass(lines, st1.symbols, st1.var_next, false)
}

proof fn lemma_cmd_views_push(s: Seq<Command>, c: Command)
    ensures
        cmd_views(s.push(c)) =~= cmd_views(s).push(c@),
{
}

/// Reads a whole source text twice, resolving labels on the first pass and
/// variables on the second.
pub struct Parser<'a> {
    input: &'a str,
    var_addr_next: u16,
}

impl<'a> Parser<'a> {
    /// The source text this parser reads.
    pub closed spec fn input_view(&self) -> Seq<char> {
        self.input@
    }

    /// The next free variable address.
    pub closed spec fn var_next(&self) -> int {
        self.var_addr_next as int
    }

    /// A parser over `input`, allocating variables from address sixteen.
    pub fn new(input: &'a str) -> (p: Parser<'a>)
        ensures
            p.input_view() == input@,
            p.var_next() == 16,
    {
        Parser { input, var_addr_next: 16 }
    }

    /// A symbol table holding the predefined names.
    pub fn build_symbols(&self) -> (t: SymbolTable)
        ensures
            t@ == spec_default_symbols(),
            t.wf(),
    {
        default_symbols()
    }

    /// Runs both passes and returns the resolved command sequence.
    pub fn parse(self) -> (r: ParseResult)
        requires
            self.var_next() + total_real(self.input_view()) <= 65535,
            total_real(self.input_view()) <= 65535,
        ensures
            ({
                let st = spec_resolve(spec_lines(self.input_view()), self.var_next());
                &&& cmd_views(r.commands@) == st.emitted
                &&& r.inst_counter as int == st.count
            }),
    {
        let mut this = self;
        let ghost v0 = this.var_next();
        let ghost lines = spec_lines(this.input_view());
        let mut symbols = this.build_symbols();
        this.parse_input(&mut symbols, true);
        proof {
            lemma_first_pass_keeps_var(
                lines,
                lines.len() as int,
                init_state(spec_default_symbols(), v0),
            );
            lemma_real_count_nonneg(lines, lines.len() as int);
        }
        this.parse_input(&mut symbols, false)
    }

    /// One pass over the source: decodes every line against the evolving
    /// symbol table, counts and collects the slot-occupying commands, and in
    /// pass two (`first_pass == false`) allocates variable addresses.
    pub fn parse_input(&mut self, symbols: &mut SymbolTable, first_pass: bool) -> (r: ParseResult)
        requires
            old(symbols).wf(),
            old(self).var_next() + total_real(old(self).input_view()) <= 65535,
            total_real(old(self).input_view()) <= 65535,
        ensures
            final(symbols).wf(),
            final(self).input_view() == old(self).input_view(),
            ({
                let st = run_pass(
                    spec_lines(old(self).input_view()),
                    old(symbols)@,
                    old(self).var_next(),
                    first_pass,
                );
                &&& final(symbols)@ == st.symbols
                &&& final(self).var_next() == st.var_next
                &&& cmd_views(r.commands@) == st.emitted
                &&& r.inst_counter as int == st.count
            }),
    {
        let input_text: &'a str = self.input;
        let ghost lspec = spec_lines(input_text@);
        let ghost var0 = self.var_addr_next as int;
        let ghost st0 = init_state(symbols@, var0);
        let lines = split_lines(input_text);
        let mut inst_counter: u16 = 0;
        let mut commands: Vec<Command> = Vec::new();
        let mut idx: usize = 0;
        proof {
            assert(cmd_views(Seq::<Command>::empty()) =~= Seq::<SpecCommand>::empty());
        }
        while idx < lines.len()
            invariant
                0 <= idx <= lines.len(),
                symbols.wf(),
                str_views(lines@) == lspec,
                self.input@ == input_text@,
                lspec == spec_lines(input_text@),
                lines@.len() == lspec.len(),
                real_count(lspec, lspec.len() as int) <= 65535,
                var0 + real_count(lspec, lspec.len() as int) <= 65535,
                symbols@ == state_at(lspec, idx as int, st0, first_pass).symbols,
                inst_counter as int == state_at(lspec, idx as int, st0, first_pass).count,
                self.var_addr_next as int == state_at(lspec, idx as int, st0, first_pass).var_next,
                cmd_views(commands@) == state_at(lspec, idx as int, st0, first_pass).emitted,
                inst_counter as int == real_count(lspec, idx as int),
                st0.count == 0,
                st0.var_next == var0,
                st0.emitted == Seq::<SpecCommand>::empty(),
                self.var_addr_next as int <= var0 + real_count(lspec, idx as int),
            decreases lines.len() - idx,
        {
            let ghost st = state_at(lspec, idx as int, st0, first_pass);
            let ghost line_view = lspec[idx as int];
            proof {
                assert(str_views(lines@)[idx as int] == lines@[idx as int]@);
                lemma_real_count_mono(lspec, idx + 1, lspec.len() as int);
                lemma_real_count_nonneg(lspec, idx as int);
            }
            let line: &str = lines[idx];
            let decoded = Self::parse_line(line, symbols);
            match decoded {
                Option::None => {
                    proof {
                        assert(state_at(lspec, idx + 1, st0, first_pass) == st);
                    }
                },
                Option::Some(command) => {
                    let Command { inst, raw } = command;
                    match inst {
                        Instruction::LInstruction { label } => {
                            match symbols.get(label.as_str()) {
                                Option::Some(_bound) => {},
                                Option::None => {
                                    symbols.insert(label, inst_counter);
                                },
                            }
                        },
                        Instruction::AInstruction { address } => {
                            match address {
                                AInstAddress::Label(name) => {
                                    if !first_pass {
                                        let addr = self.var_addr_next;
                                        proof {
                                            lemma_cmd_views_push(
                                                commands@,
                                                Command {
                                                    inst: Instruction::AInstruction {
                                                        address: AInstAddress::Address(addr),
                                                    },
                                                    raw,
                                                },
                                            );
                                        }
                                        symbols.insert(name, addr);
                                        inst_counter = inst_counter + 1;
                                        commands.push(
                                            Command {
                                                inst: Instruction::AInstruction {
                                                    address: AInstAddress::Address(addr),
                                                },
                                                raw,
                                            },
                                        );
                                        self.var_addr_next = self.var_addr_next + 1;
                                    } else {
                                        proof {
                                            lemma_cmd_views_push(
                                                commands@,
                                                Command {
                                                    inst: Instruction::AInstruction {
                                                        address: AInstAddress::Label(name),
                                                    },
                                                    raw,
                                                },
                                            );
                                        }
                                        inst_counter = inst_counter + 1;
                                        commands.push(
                                            Command {
                                                inst: Instruction::AInstruction {
                                                    address: AInstAddress::Label(name),
                                                },
                                                raw,
                                            },
                                        );
                                    }
                                },
                                AInstAddress::Address(a) => {
                                    proof {
                                        lemma_cmd_views_push(
                                            commands@,
                                            Command {
                                                inst: Instruction::AInstruction {
                                                    address: AInstAddress::Address(a),
                                                },
                                                raw,
                                            },
                                        );
                                    }
                                    inst_counter = inst_counter + 1;
                                    commands.push(
                                        Command {
                                            inst: Instruction::AInstruction {
                                                address: AInstAddress::Address(a),
                                            },
                                            raw,
                                        },
                                    );
                                },
                            }
                        },
                        Instruction::CInstruction { comp, dest, jump } => {
                            proof {
                                lemma_cmd_views_push(
                                    commands@,
                                    Command {
                                        inst: Instruction::CInstruction { comp, dest, jump },
                                        raw,
                                    },
                                );
                            }
                            inst_counter = inst_counter + 1;
                            commands.push(
                                Command {
                                    inst: Instruction::CInstruction { comp, dest, jump },
                                    raw,
                                },
                            );
                        },
                    }
                },
            }
            idx = idx + 1;
        }
        ParseResult { commands, inst_counter }
    }

    fn parse_comp(s: String) -> (c: Comp)
        ensures
            c@ == s@,
    {
        make_comp(s)
    }

    fn parse_dest(s: Option<&str>) -> (r: Dest)
        ensures
            r == spec_dest_of(match s {
                Option::Some(t) => Option::Some(t@),
                Option::None => Option::None,
            }),
    {
        match s {
            Option::Some(t) => {
                if str_eq(t, "M") {
                    Dest::M
                } else if str_eq(t, "D") {
                    Dest::D
                } else if str_eq(t, "MD") {
                    Dest::MD
                } else if str_eq(t, "A") {
                    Dest::A
                } else if str_eq(t, "AM") {
                    Dest::AM
                } else if str_eq(t, "AD") {
                    Dest::AD
                } else if str_eq(t, "AMD") {
                    Dest::AMD
                } else {
                    Dest::Null
                }
            },
            Option::None => Dest::Null,
        }
    }

    fn parse_jump(s: Option<&str>) -> (r: Jump)
        ensures
            r == spec_jump_of(match s {
                Option::Some(t) => Option::Some(t@),
                Option::None => Option::None,
            }),
    {
        match s {
            Option::Some(t) => {
                if str_eq(t, "JGT") {
                    Jump::JGT
                } else if str_eq(t, "JEQ") {
                    Jump::JEQ
                } else if str_eq(t, "JGE") {
                    Jump::JGE
                } else if str_eq(t, "JLT") {
                    Jump::JLT
                } else if str_eq(t, "JNE") {
                    Jump::JNE
                } else if str_eq(t, "JLE") {
                    Jump::JLE
                } else if str_eq(t, "JMP") {
                    Jump::JMP
                } else {
                    Jump::Null
                }
            },
            Option::None => Jump::Null,
        }
    }

    /// Resolves a non-numeric operand through the symbol table.
    fn resolve_name(symbols: &SymbolTable, name: &str) -> (r: Instruction)
        requires
            symbols.wf(),
        ensures
            r@ == spec_name_resolution(name@, symbols@),
    {
        match symbols.get(name) {
            Option::Some(a) => Instruction::AInstruction { address: AInstAddress::Address(a) },
            Option::None => Instruction::AInstruction {
                address: AInstAddress::Label(String::from_str(name)),
            },
        }
    }

    fn parse_line(line: &str, symbols: &SymbolTable) -> (r: Option<Command>)
        requires
            symbols.wf(),
        ensures
            (match r {
                Option::Some(c) => Option::Some(c@),
                Option::None => Option::None,
            }) == spec_decode(line@, symbols@),
    {
        let stmt = clean_line(line);
        let n = stmt.unicode_len();
        if n == 0 {
            return Option::None;
        }
        let c0 = stmt.get_char(0);
        if c0 == '@' {
            let name_str = stmt.substring_char(1, n);
            let raw = String::from_str(stmt);
            let inst = match parse_u16_str(name_str) {
                Option::Some(v) => {
                    if v <= 32767 {
                        Instruction::AInstruction { address: AInstAddress::Address(v) }
                    } else {
                        Self::resolve_name(symbols, name_str)
                    }
                },
                Option::None => Self::resolve_name(symbols, name_str),
            };
            Option::Some(Command { inst, raw })
        } else if c0 == '(' && n >= 2 && stmt.get_char(n - 1) == ')' {
            let label = String::from_str(stmt.substring_char(1, n - 1));
            Option::Some(
                Command {
                    inst: Instruction::LInstruction { label },
                    raw: String::from_str(stmt),
                },
            )
        } else {
            proof {
                lemma_find_char(stmt@, '=');
            }
            let eq_pos = find_char_str(stmt, '=');
            let (dest_tok, rest): (Option<&str>, &str) = if eq_pos < n {
                (Option::Some(stmt.substring_char(0, eq_pos)), stmt.substring_char(eq_pos + 1, n))
            } else {
                (Option::None, stmt)
            };
            let rn = rest.unicode_len();
            proof {
                lemma_find_char(rest@, ';');
            }
            let semi = find_char_str(rest, ';');
            let (comp_str, jump_tok): (&str, Option<&str>) = if semi < rn {
                (rest.substring_char(0, semi), Option::Some(rest.substring_char(semi + 1, rn)))
            } else {
                (rest, Option::None)
            };
            let dest = Self::parse_dest(dest_tok);
            let jump = Self::parse_jump(jump_tok);
            let comp = Self::parse_comp(String::from_str(comp_str));
            Option::Some(
                Command {
                    inst: Instruction::CInstruction { comp, dest, jump },
                    raw: String::from_str(stmt),
                },
            )
        }
    }
}

/// Parses a whole source text with a fresh parser.
pub fn parse(content: String) -> (r: ParseResult)
    requires
        16 + total_real(content@) <= 65535,
    ensures
        ({
            let st = spec_resolve(spec_lines(content@), 16);
            &&& cmd_views(r.commands@) == st.emitted
            &&& r.inst_counter as int == st.count
        }),
{
    let parser = Parser::new(content.as_str());
    parser.parse()
}

proof fn lemma_first_pass_keeps_var(lines: Seq<Seq<char>>, k: int, st0: PassState)
    ensures
        state_at(lines, k, st0, true).var_next == st0.var_next,
        state_at(lines, k, st0, true).allocs == st0.allocs,
    decreases k,
{
    if k > 0 {
        lemma_first_pass_keeps_var(lines, k - 1, st0);
    }
}

/// The label a label-definition line defines.
pub open spec fn label_of(l: Seq<char>) -> Seq<char> {
    let c = clean_of(l);
    c.subrange(1, c.len() - 1)
}

proof fn lemma_count_matches(lines: Seq<Seq<char>>, k: int, st0: PassState, first: bool)
    ensures
        state_at(lines, k, st0, first).count == st0.count + real_count(lines, k),
        state_at(lines, k, st0, first).emitted.len() - st0.emitted.len() == real_count(lines, k),
    decreases k,
{
    if k > 0 {
        lemma_count_matches(lines, k - 1, st0, first);
    }
}

/// Whether a command carries a fully resolved shape.
pub open spec fn is_resolved(c: SpecCommand) -> bool {
    c.inst is AAddr || c.inst is CInst
}

proof fn lemma_pass2_resolved(lines: Seq<Seq<char>>, k: int, st0: PassState)
    requires
        forall|j: int| 0 <= j < st0.emitted.len() ==> is_resolved(#[trigger] st0.emitted[j]),
    ensures
        forall|j: int|
            0 <= j < state_at(lines, k, st0, false).emitted.len() ==> is_resolved(
                #[trigger] state_at(lines, k, st0, false).emitted[j],
            ),
    decreases k,
{
    if k > 0 {
        lemma_pass2_resolved(lines, k - 1, st0);
        let prev = state_at(lines, k - 1, st0, false);
        let st = state_at(lines, k, st0, false);
        assert forall|j: int| 0 <= j < st.emitted.len() implies is_resolved(
            #[trigger] st.emitted[j],
        ) by {
            if j < prev.emitted.len() {
                assert(is_resolved(prev.emitted[j]));
            } else {
                match spec_decode(lines[k - 1], prev.symbols) {
                    Option::None => {},
                    Option::Some(cmd) => {
                        assert(st.emitted[j] == st.emitted.last());
                    },
                }
            }
        }
    }
}

/// After resolution the final sequence holds one command per counted
/// instruction slot, and every one of them is fully resolved: a numeric
/// address or a compute instruction, never an unresolved name or a label
/// definition.
pub proof fn lemma_resolved_sequence(lines: Seq<Seq<char>>, var0: int)
    ensures
        spec_resolve(lines, var0).emitted.len() == spec_resolve(lines, var0).count,
        forall|j: int|
            0 <= j < spec_resolve(lines, var0).emitted.len() ==> is_resolved(
                #[trigger] spec_resolve(lines, var0).emitted[j],
            ),
{
    let st1 = run_pass(lines, spec_default_symbols(), var0, true);
    lemma_count_matches(lines, lines.len() as int, init_state(st1.symbols, st1.var_next), false);
    lemma_pass2_resolved(lines, lines.len() as int, init_state(st1.symbols, st1.var_next));
}

/// Once a name is bound, no later line removes or rebinds it: the first
/// writer wins, so a duplicate label definition changes nothing and a
/// predefined name is never overwritten.
pub proof fn lemma_bindings_preserved(
    lines: Seq<Seq<char>>,
    a: int,
    b: int,
    st0: PassState,
    first: bool,
)
    requires
        0 <= a <= b,
    ensures
        forall|key: Seq<char>|
            #[trigger] state_at(lines, a, st0, first).symbols.contains_key(key) ==> state_at(
                lines,
                b,
                st0,
                first,
            ).symbols.contains_key(key) && state_at(lines, b, st0, first).symbols[key] == state_at(
                lines,
                a,
                st0,
                first,
            ).symbols[key],
    decreases b - a,
{
    if a < b {
        lemma_bindings_preserved(lines, a, b - 1, st0, first);
        let prev = state_at(lines, b - 1, st0, first);
        match spec_decode(lines[b - 1], prev.symbols) {
            Option::None => {},
            Option::Some(cmd) => {
                match cmd.inst {
                    SpecInst::ALabel { name } => {
                        assert(!prev.symbols.contains_key(name));
                    },
                    _ => {},
                }
            },
        }
    }
}

/// Every address assigned to a label equals the count of real instructions
/// that stand strictly before the label's first definition line, and the
/// binding still stands when the pass ends.
pub proof fn lemma_label_address(lines: Seq<Seq<char>>, i: int, st0: PassState, first: bool)
    requires
        0 <= i < lines.len(),
        is_label_line(lines[i]),
        !state_at(lines, i, st0, first).symbols.contains_key(label_of(lines[i])),
        st0.count == 0,
        real_count(lines, i) <= 65535,
    ensures
        state_at(lines, i + 1, st0, first).symbols.contains_key(label_of(lines[i])),
        state_at(lines, i + 1, st0, first).symbols[label_of(lines[i])] == real_count(
            lines,
            i,
        ) as u16,
        state_at(lines, lines.len() as int, st0, first).symbols.contains_key(label_of(lines[i])),
        state_at(lines, lines.len() as int, st0, first).symbols[label_of(lines[i])] == real_count(
            lines,
            i,
        ) as u16,
{
    lemma_count_matches(lines, i, st0, first);
    lemma_real_count_nonneg(lines, i);
    let st = state_at(lines, i, st0, first);
    assert(spec_decode(lines[i], st.symbols) matches Option::Some(cmd) && cmd.inst == (
    SpecInst::LDef { label: label_of(lines[i]) }));
    lemma_bindings_preserved(lines, i + 1, lines.len() as int, st0, first);
    assert(state_at(lines, i + 1, st0, first).symbols.contains_key(label_of(lines[i])));
}

proof fn lemma_step_keeps_keys(st: PassState, l: Seq<char>, first: bool, key: Seq<char>)
    requires
        st.symbols.contains_key(key),
    ensures
        spec_step(st, l, first).symbols.contains_key(key),
{
}

/// After a whole pass, every label defined anywhere in the lines is bound.
pub proof fn lemma_pass_collects_labels(lines: Seq<Seq<char>>, k: int, st0: PassState, first: bool)
    requires
        0 <= k <= lines.len(),
    ensures
        forall|t: int|
            0 <= t < k && #[trigger] is_label_line(lines[t]) ==> state_at(
                lines,
                k,
                st0,
                first,
            ).symbols.contains_key(label_of(lines[t])),
    decreases k,
{
    if k > 0 {
        lemma_pass_collects_labels(lines, k - 1, st0, first);
        let prev = state_at(lines, k - 1, st0, first);
        assert forall|t: int|
            0 <= t < k && #[trigger] is_label_line(lines[t]) implies state_at(
            lines,
            k,
            st0,
            first,
        ).symbols.contains_key(label_of(lines[t])) by {
            if t < k - 1 {
                lemma_step_keeps_keys(prev, lines[k - 1], first, label_of(lines[t]));
            } else {
                assert(spec_decode(lines[t], prev.symbols) matches Option::Some(cmd)
                    && cmd.inst == (SpecInst::LDef { label: label_of(lines[t]) }));
            }
        }
    }
}

proof fn lemma_alloc_invariant(lines: Seq<Seq<char>>, k: int, st0: PassState)
    requires
        0 <= k <= lines.len(),
        st0.allocs == Seq::<Seq<char>>::empty(),
        0 <= st0.var_next,
        st0.var_next + real_count(lines, lines.len() as int) <= 65535,
    ensures
        ({
            let st = state_at(lines, k, st0, false);
            &&& st.var_next == st0.var_next + st.allocs.len()
            &&& st.allocs.len() <= real_count(lines, k)
            &&& (forall|p: int, q: int|
                0 <= p < q < st.allocs.len() ==> #[trigger] st.allocs[p] != #[trigger] st.allocs[q])
            &&& (forall|j: int|
                0 <= j < st.allocs.len() ==> st.symbols.contains_key(#[trigger] st.allocs[j])
                    && st.symbols[st.allocs[j]] == (st0.var_next + j) as u16
                    && !st0.symbols.contains_key(st.allocs[j]))
            &&& (forall|key: Seq<char>|
                st0.symbols.contains_key(key) ==> st.symbols.contains_key(key))
        }),
    decreases k,
{
    lemma_real_count_nonneg(lines, k);
    if k > 0 {
        lemma_alloc_invariant(lines, k - 1, st0);
        lemma_real_count_mono(lines, k, lines.len() as int);
        let prev = state_at(lines, k - 1, st0, false);
        let st = state_at(lines, k, st0, false);
        match spec_decode(lines[k - 1], prev.symbols) {
            Option::None => {},
            Option::Some(cmd) => {
                match cmd.inst {
                    SpecInst::LDef { label } => {
                        if !prev.symbols.contains_key(label) {
                            assert(forall|j: int|
                                0 <= j < prev.allocs.len() ==> #[trigger] prev.allocs[j] != label);
                        }
                    },
                    SpecInst::ALabel { name } => {
                        assert(!prev.symbols.contains_key(name));
                        assert(st.allocs == prev.allocs.push(name));
                    },
                    _ => {},
                }
            },
        }
    }
}

/// Variable addresses are assigned in strict first-encounter order starting
/// at sixteen, each distinct name bound exactly once, the next free address
/// always sits right past the allocations, and no predefined name and no
/// label name is ever allocated as a variable.
pub proof fn lemma_variable_allocation(lines: Seq<Seq<char>>)
    requires
        16 + real_count(lines, lines.len() as int) <= 65535,
    ensures
        ({
            let st = spec_resolve(lines, 16);
            &&& st.var_next == 16 + st.allocs.len()
            &&& (forall|p: int, q: int|
                0 <= p < q < st.allocs.len() ==> #[trigger] st.allocs[p] != #[trigger] st.allocs[q])
            &&& (forall|j: int|
                0 <= j < st.allocs.len() ==> st.symbols.contains_key(#[trigger] st.allocs[j])
                    && st.symbols[st.allocs[j]] == (16 + j) as u16)
            &&& (forall|j: int|
                0 <= j < st.allocs.len() ==> !spec_default_symbols().contains_key(
                    #[trigger] st.allocs[j],
                ))
            &&& (forall|j: int, t: int|
                0 <= j < st.allocs.len() && 0 <= t < lines.len() && #[trigger] is_label_line(
                    lines[t],
                ) ==> #[trigger] st.allocs[j] != label_of(lines[t]))
        }),
{
    let start = init_state(spec_default_symbols(), 16);
    let st1 = run_pass(lines, spec_default_symbols(), 16, true);
    lemma_first_pass_keeps_var(lines, lines.len() as int, start);
    lemma_pass_collects_labels(lines, lines.len() as int, start, true);
    lemma_bindings_preserved(lines, 0, lines.len() as int, start, true);
    lemma_alloc_invariant(lines, lines.len() as int, init_state(st1.symbols, st1.var_next));
    let stf = spec_resolve(lines, 16);
    assert forall|j: int|
        0 <= j < stf.allocs.len() implies !spec_default_symbols().contains_key(
        #[trigger] stf.allocs[j],
    ) by {
        if spec_default_symbols().contains_key(stf.allocs[j]) {
            assert(state_at(lines, 0, start, true).symbols.contains_key(stf.allocs[j]));
            assert(st1.symbols.contains_key(stf.allocs[j]));
        }
    }
    assert forall|j: int, t: int|
        0 <= j < stf.allocs.len() && 0 <= t < lines.len() && #[trigger] is_label_line(
            lines[t],
        ) implies #[trigger] stf.allocs[j] != label_of(lines[t]) by {
        assert(st1.symbols.contains_key(label_of(lines[t])));
        assert(!st1.symbols.contains_key(stf.allocs[j]));
    }
}

/// The cleaned texts of the slot-occupying lines among the first `k`, in
/// source order.
pub open spec fn real_raws(lines: Seq<Seq<char>>, k: int) -> Seq<Seq<char>>
    decreases k,
{
    if k <= 0 {
        Seq::empty()
    } else if is_real_line(lines[k - 1]) {
        real_raws(lines, k - 1).push(clean_of(lines[k - 1]))
    } else {
        real_raws(lines, k - 1)
    }
}

proof fn lemma_pass_order(lines: Seq<Seq<char>>, k: int, st0: PassState, first: bool)
    ensures
        state_at(lines, k, st0, first).emitted.map_values(|c: SpecCommand| c.raw)
            == st0.emitted.map_values(|c: SpecCommand| c.raw) + real_raws(lines, k),
    decreases k,
{
    if k <= 0 {
        assert(st0.emitted.map_values(|c: SpecCommand| c.raw) + Seq::<Seq<char>>::empty()
            =~= st0.emitted.map_values(|c: SpecCommand| c.raw));
    } else {
        lemma_pass_order(lines, k - 1, st0, first);
        let prev = state_at(lines, k - 1, st0, first);
        let st = state_at(lines, k, st0, first);
        if st.emitted.len() > prev.emitted.len() {
            let pushed = st.emitted.last();
            assert(st.emitted =~= prev.emitted.push(pushed));
            assert(prev.emitted.push(pushed).map_values(|c: SpecCommand| c.raw)
                =~= prev.emitted.map_values(|c: SpecCommand| c.raw).push(pushed.raw));
            assert(st0.emitted.map_values(|c: SpecCommand| c.raw) + real_raws(lines, k - 1).push(
                pushed.raw,
            ) =~= st0.emitted.map_values(|c: SpecCommand| c.raw) + real_raws(lines, k - 1)
                + seq![pushed.raw]);
            assert(st0.emitted.map_values(|c: SpecCommand| c.raw) + real_raws(lines, k)
                =~= st0.emitted.map_values(|c: SpecCommand| c.raw) + real_raws(lines, k - 1)
                + seq![pushed.raw]);
        }
    }
}

/// The final sequence preserves the source order of the slot-occupying
/// lines: the j-th emitted command carries the cleaned text of the j-th
/// slot-occupying source line.
pub proof fn lemma_source_order_preserved(lines: Seq<Seq<char>>, var0: int)
    ensures
        spec_resolve(lines, var0).emitted.map_values(|c: SpecCommand| c.raw) == real_raws(
            lines,
            lines.len() as int,
        ),
{
    let st1 = run_pass(lines, spec_default_symbols(), var0, true);
    let st0 = init_state(st1.symbols, st1.var_next);
    lemma_pass_order(lines, lines.len() as int, st0, false);
    assert(st0.emitted.map_values(|c: SpecCommand| c.raw) =~= Seq::<Seq<char>>::empty());
    assert(Seq::<Seq<char>>::empty() + real_raws(lines, lines.len() as int) =~= real_raws(
        lines,
        lines.len() as int,
    ));
}

proof fn lemma_state_at_prefix(
    l1: Seq<Seq<char>>,
    l2: Seq<Seq<char>>,
    k: int,
    st0: PassState,
    first: bool,
)
    requires
        forall|j: int| 0 <= j < k ==> l1[j] == l2[j],
    ensures
        state_at(l1, k, st0, first) == state_at(l2, k, st0, first),
    decreases k,
{
    if k > 0 {
        lemma_state_at_prefix(l1, l2, k - 1, st0, first);
    }
}

proof fn lemma_remove_blank(lines: Seq<Seq<char>>, i: int, k: int, st0: PassState, first: bool)
    requires
        0 <= i < lines.len(),
        clean_of(lines[i]).len() == 0,
        i < k <= lines.len(),
    ensures
        state_at(lines, k, st0, first) == state_at(lines.remove(i), k - 1, st0, first),
    decreases k,
{
    if k == i + 1 {
        lemma_state_at_prefix(lines, lines.remove(i), i, st0, first);
        assert(spec_decode(lines[i], state_at(lines, i, st0, first).symbols) is None);
    } else {
        lemma_remove_blank(lines, i, k - 1, st0, first);
        assert(lines.remove(i)[k - 2] == lines[k - 1]);
    }
}

/// A blank or comment-only line contributes nothing to a single pass:
/// removing it leaves the pass's whole final state — symbols, count,
/// variable cursor and emitted commands — unchanged.
pub proof fn lemma_blank_line_dropped_in_pass(
    lines: Seq<Seq<char>>,
    i: int,
    m: Map<Seq<char>, u16>,
    var0: int,
    first: bool,
)
    requires
        0 <= i < lines.len(),
        clean_of(lines[i]).len() == 0,
    ensures
        run_pass(lines.remove(i), m, var0, first) == run_pass(lines, m, var0, first),
{
    lemma_remove_blank(lines, i, lines.len() as int, init_state(m, var0), first);
}

/// A blank or comment-only line contributes nothing: removing it changes
/// neither the symbol resolution nor the emitted command sequence.
pub proof fn lemma_blank_line_dropped(lines: Seq<Seq<char>>, i: int, var0: int)
    requires
        0 <= i < lines.len(),
        clean_of(lines[i]).len() == 0,
    ensures
        spec_resolve(lines, var0) == spec_resolve(lines.remove(i), var0),
{
    let short = lines.remove(i);
    lemma_remove_blank(
        lines,
        i,
        lines.len() as int,
        init_state(spec_default_symbols(), var0),
        true,
    );
    let st1 = run_pass(lines, spec_default_symbols(), var0, true);
    lemma_remove_blank(lines, i, lines.len() as int, init_state(st1.symbols, st1.var_next), false);
}

/// Inserting a blank or comment-only line anywhere changes nothing either:
/// the resolution of the grown program equals that of the plain one.
pub proof fn lemma_blank_line_inserted(lines: Seq<Seq<char>>, i: int, l: Seq<char>, var0: int)
    requires
        0 <= i <= lines.len(),
        clean_of(l).len() == 0,
    ensures
        spec_resolve(lines.insert(i, l), var0) == spec_resolve(lines, var0),
{
    let grown = lines.insert(i, l);
    assert(grown[i] == l);
    lemma_blank_line_dropped(grown, i, var0);
    assert(grown.remove(i) =~= lines);
}

/// Whether every address instruction in the lines carries a numeric operand
/// small enough to resolve to itself, so that no line consults the symbol
/// map.
pub open spec fn no_symbolic_operands(lines: Seq<Seq<char>>) -> bool {
    forall|t: int|
        0 <= t < lines.len() && (#[trigger] clean_of(lines[t])).len() > 0 && clean_of(
            lines[t],
        )[0] == '@' ==> (spec_parse_u16(
            clean_of(lines[t]).subrange(1, clean_of(lines[t]).len() as int),
        ) matches Option::Some(v) && v <= 32767)
}

proof fn lemma_pass_map_independent(
    lines: Seq<Seq<char>>,
    k: int,
    stA: PassState,
    stB: PassState,
)
    requires
        0 <= k <= lines.len(),
        no_symbolic_operands(lines),
        stA.count == stB.count,
        stA.var_next == stB.var_next,
        stA.emitted == stB.emitted,
        stA.allocs == stB.allocs,
    ensures
        state_at(lines, k, stA, false).count == state_at(lines, k, stB, false).count,
        state_at(lines, k, stA, false).var_next == state_at(lines, k, stB, false).var_next,
        state_at(lines, k, stA, false).emitted == state_at(lines, k, stB, false).emitted,
        state_at(lines, k, stA, false).allocs == state_at(lines, k, stB, false).allocs,
    decreases k,
{
    if k > 0 {
        lemma_pass_map_independent(lines, k - 1, stA, stB);
    }
}

/// On a program whose address instructions are all numeric, the resolved
/// command sequence does not depend on the label-collection pass: one pass
/// over the default symbols emits the same commands.
pub proof fn lemma_resolve_independent_of_first_pass(lines: Seq<Seq<char>>, var0: int)
    requires
        no_symbolic_operands(lines),
    ensures
        spec_resolve(lines, var0).emitted == run_pass(
            lines,
            spec_default_symbols(),
            var0,
            false,
        ).emitted,
{
    let st1 = run_pass(lines, spec_default_symbols(), var0, true);
    lemma_first_pass_keeps_var(lines, lines.len() as int, init_state(spec_default_symbols(), var0));
    lemma_pass_map_independent(
        lines,
        lines.len() as int,
        init_state(st1.symbols, var0),
        init_state(spec_default_symbols(), var0),
    );
}

} // verus!
