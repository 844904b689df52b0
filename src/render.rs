use vstd::prelude::*;
use crate::stmt::{Dir, DirV, Stmt, StmtV, Value, ValueV, values_view};

verus! {

/// The decimal digits of `n`, most significant first.
pub open spec fn decimal(n: nat) -> Seq<u8>
    decreases n,
{
    if n < 10 {
        seq![(0x30 + n) as u8]
    } else {
        decimal(n / 10) + seq![(0x30 + n % 10) as u8]
    }
}

/// `$` and the decimal form of `v`.
pub open spec fn render_imm(v: u64) -> Seq<u8> {
    seq![0x24u8] + decimal(v as nat)
}

pub open spec fn render_value(v: ValueV) -> Seq<u8> {
    match v {
        ValueV::Reg(r) => seq![0x25u8] + r,
        ValueV::Imm(i) => render_imm(i),
        ValueV::Sym(s) => s,
    }
}

/// The operands, separated by `, `.
pub open spec fn render_values(vs: Seq<ValueV>) -> Seq<u8>
    decreases vs.len(),
{
    if vs.len() == 0 {
        Seq::empty()
    } else if vs.len() == 1 {
        render_value(vs[0])
    } else {
        render_values(vs.drop_last()) + seq![0x2cu8, 0x20] + render_value(vs.last())
    }
}

/// A byte body between double quotes, with `\` and `"` escaped.
pub open spec fn quoted(b: Seq<u8>) -> Seq<u8> {
    seq![0x22u8] + escaped(b) + seq![0x22u8]
}

pub open spec fn escaped(b: Seq<u8>) -> Seq<u8>
    decreases b.len(),
{
    if b.len() == 0 {
        Seq::empty()
    } else {
        let c = b.last();
        escaped(b.drop_last()) + if c == 0x5c || c == 0x22 {
            seq![0x5cu8, c]
        } else {
            seq![c]
        }
    }
}

pub open spec fn render_dir(d: DirV) -> Seq<u8> {
    match d {
        DirV::Origin(o) => seq![0x2eu8, 0x6f, 0x72, 0x67, 0x20] + render_imm(o),
        DirV::Byte(b) => seq![0x2eu8, 0x62, 0x79, 0x74, 0x65, 0x20] + quoted(b),
        DirV::Word(b) => seq![0x2eu8, 0x77, 0x6f, 0x72, 0x64, 0x20] + quoted(b),
        DirV::Ascii(b) => seq![0x2eu8, 0x61, 0x73, 0x63, 0x69, 0x69, 0x20] + quoted(b),
        DirV::Asciiz(b) => seq![0x2eu8, 0x61, 0x73, 0x63, 0x69, 0x69, 0x7a, 0x20] + quoted(b),
        DirV::Dreg(r, i) => seq![0x2eu8, 0x64, 0x72, 0x65, 0x67, 0x20, 0x25] + r + seq![0x2cu8, 0x20]
            + render_imm(i),
        DirV::Dword(d) => seq![0x2eu8, 0x64, 0x77, 0x6f, 0x72, 0x64, 0x20] + render_imm(d),
    }
}

/// The text form of a statement: `name:`, `mnemonic op, op, ...` (with the
/// space after the mnemonic also when there is no operand) or
/// `.directive args`.
pub open spec fn render_stmt(s: StmtV) -> Seq<u8> {
    match s {
        StmtV::Sym(name) => name + seq![0x3au8],
        StmtV::Instr(m, vs) => m + seq![0x20u8] + render_values(vs),
        StmtV::Dir(d) => render_dir(d),
    }
}

/// Appends every byte of `b`.
fn push_all(buf: &mut Vec<u8>, b: &Vec<u8>)
    ensures
        final(buf)@ == old(buf)@ + b@,
{
    let mut i: usize = 0;
    while i < b.len()
        invariant
            i <= b@.len(),
            buf@ == old(buf)@ + b@.subrange(0, i as int),
        decreases b@.len() - i,
    {
        buf.push(b[i]);
        i = i + 1;
        assert(buf@ =~= old(buf)@ + b@.subrange(0, i as int));
    }
    assert(b@.subrange(0, b@.len() as int) =~= b@);
}

/// Appends the decimal digits of `n`.
fn push_decimal(buf: &mut Vec<u8>, n: u64)
    ensures
        final(buf)@ == old(buf)@ + decimal(n as nat),
    decreases n,
{
    if n >= 10 {
        push_decimal(buf, n / 10);
    }
    buf.push(0x30 + (n % 10) as u8);
    assert(buf@ =~= old(buf)@ + decimal(n as nat));
}

/// Appends `$` and the decimal digits of `v`.
fn push_imm(buf: &mut Vec<u8>, v: u64)
    ensures
        final(buf)@ == old(buf)@ + render_imm(v),
{
    buf.push(0x24);
    push_decimal(buf, v);
    assert(buf@ =~= old(buf)@ + render_imm(v));
}

/// Appends `b` between double quotes, with `\` and `"` escaped.
fn push_quoted(buf: &mut Vec<u8>, b: &Vec<u8>)
    ensures
        final(buf)@ == old(buf)@ + quoted(b@),
{
    buf.push(0x22);
    let ghost open_len = buf@;
    let mut i: usize = 0;
    while i < b.len()
        invariant
            i <= b@.len(),
            buf@ == open_len + escaped(b@.subrange(0, i as int)),
        decreases b@.len() - i,
    {
        let c = b[i];
        assert(b@.subrange(0, i + 1).drop_last() =~= b@.subrange(0, i as int));
        if c == 0x5c || c == 0x22 {
            buf.push(0x5c);
        }
        buf.push(c);
        i = i + 1;
        assert(buf@ =~= open_len + escaped(b@.subrange(0, i as int)));
    }
    assert(b@.subrange(0, b@.len() as int) =~= b@);
    buf.push(0x22);
    assert(buf@ =~= old(buf)@ + quoted(b@));
}

/// Appends the bytes `w`.
fn push_word(buf: &mut Vec<u8>, w: Vec<u8>)
    ensures
        final(buf)@ == old(buf)@ + w@,
{
    push_all(buf, &w);
}

impl Value {
    /// Appends the text form of this operand.
    pub fn render_into(&self, buf: &mut Vec<u8>)
        ensures
            final(buf)@ == old(buf)@ + render_value(self@),
    {
        match self {
            Value::Reg(r) => {
                buf.push(0x25);
                push_all(buf, r);
                assert(buf@ =~= old(buf)@ + render_value(self@));
            },
            Value::Imm(i) => push_imm(buf, *i),
            Value::Sym(s) => push_all(buf, s),
        }
    }
}

impl Dir {
    /// Appends the text form of this directive.
    pub fn render_into(&self, buf: &mut Vec<u8>)
        ensures
            final(buf)@ == old(buf)@ + render_dir(self@),
    {
        match self {
            Dir::Origin(o) => {
                push_word(buf, vec![0x2eu8, 0x6f, 0x72, 0x67, 0x20]);
                push_imm(buf, *o);
            },
            Dir::Byte(b) => {
                push_word(buf, vec![0x2eu8, 0x62, 0x79, 0x74, 0x65, 0x20]);
                push_quoted(buf, b);
            },
            Dir::Word(b) => {
                push_word(buf, vec![0x2eu8, 0x77, 0x6f, 0x72, 0x64, 0x20]);
                push_quoted(buf, b);
            },
            Dir::Ascii(b) => {
                push_word(buf, vec![0x2eu8, 0x61, 0x73, 0x63, 0x69, 0x69, 0x20]);
                push_quoted(buf, b);
            },
            Dir::Asciiz(b) => {
                push_word(buf, vec![0x2eu8, 0x61, 0x73, 0x63, 0x69, 0x69, 0x7a, 0x20]);
                push_quoted(buf, b);
            },
            Dir::Dreg(r, i) => {
                push_word(buf, vec![0x2eu8, 0x64, 0x72, 0x65, 0x67, 0x20, 0x25]);
                push_all(buf, r);
                push_word(buf, vec![0x2cu8, 0x20]);
                push_imm(buf, *i);
            },
            Dir::Dword(d) => {
                push_word(buf, vec![0x2eu8, 0x64, 0x77, 0x6f, 0x72, 0x64, 0x20]);
                push_imm(buf, *d);
            },
        }
        assert(buf@ =~= old(buf)@ + render_dir(self@));
    }
}

impl Stmt {
    /// The text form of this statement.
    pub fn render(&self) -> (r: Vec<u8>)
        ensures
            r@ == render_stmt(self@),
    {
        let mut buf: Vec<u8> = Vec::new();
        match self {
            Stmt::Sym(name) => {
                push_all(&mut buf, name);
                buf.push(0x3a);
            },
            Stmt::Instr(m, args) => {
                push_all(&mut buf, m);
                buf.push(0x20);
                if args.len() > 0 {
                    let ghost head = buf@;
                    let mut i: usize = 0;
                    while i < args.len()
                        invariant
                            0 < args@.len(),
                            i <= args@.len(),
                            buf@ == head + render_values(values_view(args@.subrange(0, i as int))),
                        decreases args@.len() - i,
                    {
                        let ghost vs = values_view(args@.subrange(0, i + 1));
                        assert(vs.drop_last() =~= values_view(args@.subrange(0, i as int)));
                        assert(vs.last() == args@[i as int]@);
                        if i > 0 {
                            buf.push(0x2c);
                            buf.push(0x20);
                        }
                        args[i].render_into(&mut buf);
                        i = i + 1;
                        assert(buf@ =~= head + render_values(values_view(args@.subrange(0, i as int))));
                    }
                    assert(args@.subrange(0, args@.len() as int) =~= args@);
                }
            },
            Stmt::Dir(d) => d.render_into(&mut buf),
        }
        assert(buf@ =~= render_stmt(self@));
        buf
    }
}

} // verus!
