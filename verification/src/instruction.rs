//! The instruction model: destination and jump tables, computation
//! mnemonics, the decoded-instruction variants, and the symbol table.

use vstd::prelude::*;

use crate::text::str_eq;

verus! {

/// The destination-register set of a compute instruction, one flag per
/// register.
#[derive(Debug, Clone, Copy, PartialEq, Eq)]
pub enum Dest {
    Null,
    M,
    D,
    MD,
    A,
    AM,
    AD,
    AMD,
}

/// The jump condition of a compute instruction.
#[derive(Debug, Clone, Copy, PartialEq, Eq)]
pub enum Jump {
    Null,
    JGT,
    JEQ,
    JGE,
    JLT,
    JNE,
    JLE,
    JMP,
}

/// The three-bit pattern of a destination set.
pub open spec fn spec_dest_bits(d: Dest) -> Seq<char> {
    match d {
        Dest::Null => "000"@,
        Dest::M => "001"@,
        Dest::D => "010"@,
        Dest::MD => "011"@,
        Dest::A => "100"@,
        Dest::AM => "101"@,
        Dest::AD => "110"@,
        Dest::AMD => "111"@,
    }
}

/// The three-bit pattern of a jump condition.
pub open spec fn spec_jump_bits(j: Jump) -> Seq<char> {
    match j {
        Jump::Null => "000"@,
        Jump::JGT => "001"@,
        Jump::JEQ => "010"@,
        Jump::JGE => "011"@,
        Jump::JLT => "100"@,
        Jump::JNE => "101"@,
        Jump::JLE => "110"@,
        Jump::JMP => "111"@,
    }
}

impl Dest {
    /// The three-bit pattern of this destination set.
    pub fn bits(&self) -> (r: &'static str)
        ensures
            r@ == spec_dest_bits(*self),
    {
        match self {
            Dest::Null => "000",
            Dest::M => "001",
            Dest::D => "010",
            Dest::MD => "011",
            Dest::A => "100",
            Dest::AM => "101",
            Dest::AD => "110",
            Dest::AMD => "111",
        }
    }
}

impl Jump {
    /// The three-bit pattern of this jump condition.
    pub fn bits(&self) -> (r: &'static str)
        ensures
            r@ == spec_jump_bits(*self),
    {
        match self {
            Jump::Null => "000",
            Jump::JGT => "001",
            Jump::JEQ => "010",
            Jump::JGE => "011",
            Jump::JLT => "100",
            Jump::JNE => "101",
            Jump::JLE => "110",
            Jump::JMP => "111",
        }
    }
}

/// The seven-bit pattern of a computation mnemonic, or the all-dash sentinel
/// for a mnemonic outside the table.
pub open spec fn spec_comp_bits(s: Seq<char>) -> Seq<char> {
    if s == "0"@ {
        "0101010"@
    } else if s == "1"@ {
        "0111111"@
    } else if s == "-1"@ {
        "0111010"@
    } else if s == "D"@ {
        "0001100"@
    } else if s == "A"@ {
        "0110000"@
    } else if s == "!D"@ {
        "0001101"@
    } else if s == "!A"@ {
        "0110001"@
    } else if s == "-D"@ {
        "0001111"@
    } else if s == "-A"@ {
        "0110011"@
    } else if s == "D+1"@ {
        "0011111"@
    } else if s == "A+1"@ {
        "0110111"@
    } else if s == "D-1"@ {
        "0001110"@
    } else if s == "A-1"@ {
        "0110010"@
    } else if s == "D+A"@ {
        "0000010"@
    } else if s == "D-A"@ {
        "0010011"@
    } else if s == "A-D"@ {
        "0000111"@
    } else if s == "D&A"@ {
        "0000000"@
    } else if s == "D|A"@ {
        "0010101"@
    } else if s == "M"@ {
        "1110000"@
    } else if s == "!M"@ {
        "1110001"@
    } else if s == "-M"@ {
        "1110011"@
    } else if s == "M+1"@ {
        "1110111"@
    } else if s == "M-1"@ {
        "1110010"@
    } else if s == "D+M"@ {
        "1000010"@
    } else if s == "D-M"@ {
        "1010011"@
    } else if s == "M-D"@ {
        "1000111"@
    } else if s == "D&M"@ {
        "1000000"@
    } else if s == "D|M"@ {
        "1010101"@
    } else {
        "-------"@
    }
}

/// A computation mnemonic, kept as raw text and checked only when encoded.
#[derive(Debug)]
pub struct Comp(String);

impl View for Comp {
    type V = Seq<char>;

    closed spec fn view(&self) -> Seq<char> {
        self.0@
    }
}

impl Comp {
    /// The seven-bit pattern of this mnemonic, or the all-dash sentinel for
    /// one outside the table.
    pub fn fmt_binary(&self) -> (r: &'static str)
        ensures
            r@ == spec_comp_bits(self@),
    {
        let s = self.0.as_str();
        if str_eq(s, "0") {
            "0101010"
        } else if str_eq(s, "1") {
            "0111111"
        } else if str_eq(s, "-1") {
            "0111010"
        } else if str_eq(s, "D") {
            "0001100"
        } else if str_eq(s, "A") {
            "0110000"
        } else if str_eq(s, "!D") {
            "0001101"
        } else if str_eq(s, "!A") {
            "0110001"
        } else if str_eq(s, "-D") {
            "0001111"
        } else if str_eq(s, "-A") {
            "0110011"
        } else if str_eq(s, "D+1") {
            "0011111"
        } else if str_eq(s, "A+1") {
            "0110111"
        } else if str_eq(s, "D-1") {
            "0001110"
        } else if str_eq(s, "A-1") {
            "0110010"
        } else if str_eq(s, "D+A") {
            "0000010"
        } else if str_eq(s, "D-A") {
            "0010011"
        } else if str_eq(s, "A-D") {
            "0000111"
        } else if str_eq(s, "D&A") {
            "0000000"
        } else if str_eq(s, "D|A") {
            "0010101"
        } else if str_eq(s, "M") {
            "1110000"
        } else if str_eq(s, "!M") {
            "1110001"
        } else if str_eq(s, "-M") {
            "1110011"
        } else if str_eq(s, "M+1") {
            "1110111"
        } else if str_eq(s, "M-1") {
            "1110010"
        } else if str_eq(s, "D+M") {
            "1000010"
        } else if str_eq(s, "D-M") {
            "1010011"
        } else if str_eq(s, "M-D") {
            "1000111"
        } else if str_eq(s, "D&M") {
            "1000000"
        } else if str_eq(s, "D|M") {
            "1010101"
        } else {
            "-------"
        }
    }
}

/// Wraps raw computation text as a mnemonic.
pub fn make_comp(s: String) -> (c: Comp)
    ensures
        c@ == s@,
{
    Comp(s)
}

/// The operand of an address instruction: a resolved numeric address or a
/// still-unresolved symbolic name.
#[derive(Debug)]
pub enum AInstAddress {
    Address(u16),
    Label(String),
}

/// A decoded instruction.
#[derive(Debug)]
pub enum Instruction {
    AInstruction { address: AInstAddress },
    CInstruction { comp: Comp, dest: Dest, jump: Jump },
    LInstruction { label: String },
}

/// The mathematical shape of a decoded instruction.
pub enum SpecInst {
    AAddr { address: u16 },
    ALabel { name: Seq<char> },
    CInst { comp: Seq<char>, dest: Dest, jump: Jump },
    LDef { label: Seq<char> },
}

impl View for Instruction {
    type V = SpecInst;

    open spec fn view(&self) -> SpecInst {
        match self {
            Instruction::AInstruction { address: AInstAddress::Address(a) } => SpecInst::AAddr {
                address: *a,
            },
            Instruction::AInstruction { address: AInstAddress::Label(l) } => SpecInst::ALabel {
                name: l@,
            },
            Instruction::CInstruction { comp, dest, jump } => SpecInst::CInst {
                comp: comp@,
                dest: *dest,
                jump: *jump,
            },
            Instruction::LInstruction { label } => SpecInst::LDef { label: label@ },
        }
    }
}

/// The mapping from names to resolved addresses.
pub struct SymbolTable {
    entries: Vec<(String, u16)>,
}

/// The mapping that a sequence of distinct-keyed entries holds.
pub open spec fn map_of_entries(s: Seq<(String, u16)>) -> Map<Seq<char>, u16>
    decreases s.len(),
{
    if s.len() == 0 {
        Map::empty()
    } else {
        map_of_entries(s.drop_last()).insert(s.last().0@, s.last().1)
    }
}

impl View for SymbolTable {
    type V = Map<Seq<char>, u16>;

    closed spec fn view(&self) -> Map<Seq<char>, u16> {
        map_of_entries(self.entries@)
    }
}

proof fn lemma_map_of_present(s: Seq<(String, u16)>, i: int)
    requires
        forall|p: int, q: int| 0 <= p < q < s.len() ==> (#[trigger] s[p]).0@ != (#[trigger] s[q]).0@,
        0 <= i < s.len(),
    ensures
        map_of_entries(s).contains_key(s[i].0@),
        map_of_entries(s)[s[i].0@] == s[i].1,
    decreases s.len(),
{
    if i + 1 < s.len() {
        lemma_map_of_present(s.drop_last(), i);
    }
}

proof fn lemma_map_of_absent(s: Seq<(String, u16)>, k: Seq<char>)
    requires
        forall|p: int| 0 <= p < s.len() ==> (#[trigger] s[p]).0@ != k,
    ensures
        !map_of_entries(s).contains_key(k),
    decreases s.len(),
{
    if s.len() > 0 {
        lemma_map_of_absent(s.drop_last(), k);
    }
}

proof fn lemma_map_of_update(s: Seq<(String, u16)>, i: int, p: (String, u16))
    requires
        forall|a: int, b: int| 0 <= a < b < s.len() ==> (#[trigger] s[a]).0@ != (#[trigger] s[b]).0@,
        0 <= i < s.len(),
        p.0@ == s[i].0@,
    ensures
        map_of_entries(s.update(i, p)) =~= map_of_entries(s).insert(p.0@, p.1),
    decreases s.len(),
{
    let t = s.update(i, p);
    if i + 1 == s.len() {
        assert(t.drop_last() =~= s.drop_last());
        assert(t.last() == p);
    } else {
        lemma_map_of_update(s.drop_last(), i, p);
        assert(t.drop_last() =~= s.drop_last().update(i, p));
        assert(t.last() == s.last());
        assert(s.last().0@ != s[i].0@);
    }
}

impl SymbolTable {
    /// The table's entries bind distinct names.
    pub closed spec fn wf(&self) -> bool {
        forall|p: int, q: int|
            0 <= p < q < self.entries@.len() ==> (#[trigger] self.entries@[p]).0@ != (
            #[trigger] self.entries@[q]).0@
    }

    /// An empty table.
    pub fn empty() -> (t: SymbolTable)
        ensures
            t@ == Map::<Seq<char>, u16>::empty(),
            t.wf(),
    {
        SymbolTable { entries: Vec::new() }
    }

    /// The address bound to `name`, if any.
    pub fn get(&self, name: &str) -> (r: Option<u16>)
        requires
            self.wf(),
        ensures
            r == if self@.contains_key(name@) {
                Some(self@[name@])
            } else {
                None::<u16>
            },
    {
        let n = self.entries.len();
        let mut i: usize = 0;
        while i < n
            invariant
                0 <= i <= n,
                n == self.entries@.len(),
                forall|p: int, q: int|
                    0 <= p < q < self.entries@.len() ==> (#[trigger] self.entries@[p]).0@ != (
                    #[trigger] self.entries@[q]).0@,
                forall|p: int| 0 <= p < i ==> (#[trigger] self.entries@[p]).0@ != name@,
            decreases n - i,
        {
            if str_eq(self.entries[i].0.as_str(), name) {
                proof {
                    lemma_map_of_present(self.entries@, i as int);
                }
                return Some(self.entries[i].1);
            }
            i = i + 1;
        }
        proof {
            lemma_map_of_absent(self.entries@, name@);
        }
        None
    }

    /// Binds `name` to `addr`, replacing any earlier binding.
    pub fn insert(&mut self, name: String, addr: u16)
        requires
            old(self).wf(),
        ensures
            final(self)@ == old(self)@.insert(name@, addr),
            final(self).wf(),
    {
        let n = self.entries.len();
        let mut i: usize = 0;
        while i < n
            invariant
                0 <= i <= n,
                n == self.entries@.len(),
                self.entries@ == old(self).entries@,
                forall|p: int, q: int|
                    0 <= p < q < self.entries@.len() ==> (#[trigger] self.entries@[p]).0@ != (
                    #[trigger] self.entries@[q]).0@,
                forall|p: int| 0 <= p < i ==> (#[trigger] self.entries@[p]).0@ != name@,
            decreases n - i,
        {
            if str_eq(self.entries[i].0.as_str(), name.as_str()) {
                proof {
                    lemma_map_of_update(self.entries@, i as int, (name, addr));
                }
                self.entries.set(i, (name, addr));
                return ;
            }
            i = i + 1;
        }
        proof {
            assert(self.entries@.push((name, addr)).drop_last() =~= self.entries@);
        }
        self.entries.push((name, addr));
    }
}

/// The map of predefined names: pointer registers, the sixteen general
/// registers, and the screen and keyboard bases.
pub open spec fn spec_default_symbols() -> Map<Seq<char>, u16> {
    Map::<Seq<char>, u16>::empty().insert("SP"@, 0).insert("LCL"@, 1).insert("ARG"@, 2).insert(
        "THIS"@,
        3,
    ).insert("THAT"@, 4).insert("R0"@, 0).insert("R1"@, 1).insert("R2"@, 2).insert(
        "R3"@,
        3,
    ).insert("R4"@, 4).insert("R5"@, 5).insert("R6"@, 6).insert("R7"@, 7).insert(
        "R8"@,
        8,
    ).insert("R9"@, 9).insert("R10"@, 10).insert("R11"@, 11).insert("R12"@, 12).insert(
        "R13"@,
        13,
    ).insert("R14"@, 14).insert("R15"@, 15).insert("SCREEN"@, 0x4000).insert("KBD"@, 0x6000)
}

/// A symbol table seeded with the predefined names.
pub fn default_symbols() -> (t: SymbolTable)
    ensures
        t@ == spec_default_symbols(),
        t.wf(),
{
    let mut t = SymbolTable::empty();
    t.insert(String::from_str("SP"), 0);
    t.insert(String::from_str("LCL"), 1);
    t.insert(String::from_str("ARG"), 2);
    t.insert(String::from_str("THIS"), 3);
    t.insert(String::from_str("THAT"), 4);
    t.insert(String::from_str("R0"), 0);
    t.insert(String::from_str("R1"), 1);
    t.insert(String::from_str("R2"), 2);
    t.insert(String::from_str("R3"), 3);
    t.insert(String::from_str("R4"), 4);
    t.insert(String::from_str("R5"), 5);
    t.insert(String::from_str("R6"), 6);
    t.insert(String::from_str("R7"), 7);
    t.insert(String::from_str("R8"), 8);
    t.insert(String::from_str("R9"), 9);
    t.insert(String::from_str("R10"), 10);
    t.insert(String::from_str("R11"), 11);
    t.insert(String::from_str("R12"), 12);
    t.insert(String::from_str("R13"), 13);
    t.insert(String::from_str("R14"), 14);
    t.insert(String::from_str("R15"), 15);
    t.insert(String::from_str("SCREEN"), 0x4000);
    t.insert(String::from_str("KBD"), 0x6000);
    t
}

} // verus!
