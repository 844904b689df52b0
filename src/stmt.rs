use vstd::prelude::*;

verus! {

/// An operand of an instruction.
#[derive(Clone, Debug, PartialEq, Eq)]
pub enum Value {
    /// A register, by name.
    Reg(Vec<u8>),
    /// An immediate, as a 64-bit pattern.
    Imm(u64),
    /// A reference to a symbol, by name.
    Sym(Vec<u8>),
}

/// A directive with its arguments.
#[derive(Clone, Debug, PartialEq, Eq)]
pub enum Dir {
    Origin(u64),
    Byte(Vec<u8>),
    Word(Vec<u8>),
    Ascii(Vec<u8>),
    Asciiz(Vec<u8>),
    Dreg(Vec<u8>, u64),
    Dword(u64),
}

/// One statement of a program.
#[derive(Clone, Debug, PartialEq, Eq)]
pub enum Stmt {
    /// An instruction: its mnemonic and its operands.
    Instr(Vec<u8>, Vec<Value>),
    /// A label definition.
    Sym(Vec<u8>),
    /// A directive.
    Dir(Dir),
}

/// The mathematical form of a `Value`.
pub enum ValueV {
    Reg(Seq<u8>),
    Imm(u64),
    Sym(Seq<u8>),
}

/// The mathematical form of a `Dir`.
pub enum DirV {
    Origin(u64),
    Byte(Seq<u8>),
    Word(Seq<u8>),
    Ascii(Seq<u8>),
    Asciiz(Seq<u8>),
    Dreg(Seq<u8>, u64),
    Dword(u64),
}

/// The mathematical form of a `Stmt`.
pub enum StmtV {
    Instr(Seq<u8>, Seq<ValueV>),
    Sym(Seq<u8>),
    Dir(DirV),
}

impl View for Value {
    type V = ValueV;

    open spec fn view(&self) -> ValueV {
        match self {
            Value::Reg(r) => ValueV::Reg(r@),
            Value::Imm(i) => ValueV::Imm(*i),
            Value::Sym(s) => ValueV::Sym(s@),
        }
    }
}

impl View for Dir {
    type V = DirV;

    open spec fn view(&self) -> DirV {
        match self {
            Dir::Origin(o) => DirV::Origin(*o),
            Dir::Byte(b) => DirV::Byte(b@),
            Dir::Word(b) => DirV::Word(b@),
            Dir::Ascii(b) => DirV::Ascii(b@),
            Dir::Asciiz(b) => DirV::Asciiz(b@),
            Dir::Dreg(r, i) => DirV::Dreg(r@, *i),
            Dir::Dword(d) => DirV::Dword(*d),
        }
    }
}

pub open spec fn values_view(vs: Seq<Value>) -> Seq<ValueV> {
    vs.map_values(|v: Value| v@)
}

impl View for Stmt {
    type V = StmtV;

    open spec fn view(&self) -> StmtV {
        match self {
            Stmt::Instr(m, args) => StmtV::Instr(m@, values_view(args@)),
            Stmt::Sym(s) => StmtV::Sym(s@),
            Stmt::Dir(d) => StmtV::Dir(d@),
        }
    }
}

} // verus!
