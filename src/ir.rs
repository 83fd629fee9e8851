//! The three-address instruction set, its static energy costs and its
//! one-line text form.
use vstd::prelude::*;
use crate::ast::Type;
use crate::text::{int_text, push_int};

verus! {

/// Arithmetic operator of a `BinOp` instruction, with its width tag.
#[derive(Debug, Clone, Copy, PartialEq, Eq, Structural)]
pub enum BinOp {
    Add(Type),
    Sub(Type),
    Mul(Type),
    Div(Type),
}

/// Comparison operator of a `Cmp` instruction.
#[derive(Debug, Clone, Copy, PartialEq, Eq, Structural)]
pub enum CmpIR {
    Eq,
    Ne,
    Lt,
    Le,
    Gt,
    Ge,
}

/// One IR instruction. Operands are names in one flat namespace.
#[derive(Debug, Clone)]
pub enum Instr {
    /// value, destination, width
    LoadConst(i64, String, Type),
    /// source, destination, width
    Move(String, String, Type),
    /// operator, left, right, destination
    BinOp(BinOp, String, String, String),
    /// operator, left, right, destination
    Cmp(CmpIR, String, String, String),
    /// destination, width: one value from the input source
    Read(String, Type),
    Label(String),
    /// condition, label taken when it is non-zero, label taken otherwise
    BrIf(String, String, String),
    Jmp(String),
}

/// An instruction with its names seen as character sequences.
pub enum InstrModel {
    LoadConst(i64, Seq<char>, Type),
    Move(Seq<char>, Seq<char>, Type),
    BinOp(BinOp, Seq<char>, Seq<char>, Seq<char>),
    Cmp(CmpIR, Seq<char>, Seq<char>, Seq<char>),
    Read(Seq<char>, Type),
    Label(Seq<char>),
    BrIf(Seq<char>, Seq<char>, Seq<char>),
    Jmp(Seq<char>),
}

impl View for Instr {
    type V = InstrModel;

    open spec fn view(&self) -> InstrModel {
        match self {
            Instr::LoadConst(v, d, t) => InstrModel::LoadConst(*v, d@, *t),
            Instr::Move(s, d, t) => InstrModel::Move(s@, d@, *t),
            Instr::BinOp(o, a, b, d) => InstrModel::BinOp(*o, a@, b@, d@),
            Instr::Cmp(o, a, b, d) => InstrModel::Cmp(*o, a@, b@, d@),
            Instr::Read(d, t) => InstrModel::Read(d@, *t),
            Instr::Label(n) => InstrModel::Label(n@),
            Instr::BrIf(c, t, e) => InstrModel::BrIf(c@, t@, e@),
            Instr::Jmp(l) => InstrModel::Jmp(l@),
        }
    }
}

/// A program as a sequence of instruction models.
pub open spec fn prog_view(p: Seq<Instr>) -> Seq<InstrModel> {
    p.map_values(|i: Instr| i@)
}

/// Static energy cost of one instruction.
pub open spec fn cost_of(i: InstrModel) -> nat {
    match i {
        InstrModel::LoadConst(..) => 1,
        InstrModel::Move(_, _, t) => if t == Type::I32 { 4 } else { 5 },
        InstrModel::BinOp(op, _, _, _) => match op {
            BinOp::Add(_) | BinOp::Sub(_) => 1,
            BinOp::Mul(t) => if t == Type::I32 { 3 } else { 5 },
            BinOp::Div(t) => if t == Type::I32 { 20 } else { 40 },
        },
        InstrModel::Cmp(..) => 1,
        InstrModel::Read(..) => 50,
        InstrModel::Label(..) => 0,
        InstrModel::BrIf(..) => 1,
        InstrModel::Jmp(..) => 1,
    }
}

/// Static energy of a program: the sum of the costs of its instructions.
pub open spec fn energy(p: Seq<InstrModel>) -> nat
    decreases p.len(),
{
    if p.len() == 0 {
        0
    } else {
        energy(p.drop_last()) + cost_of(p.last())
    }
}

/// Text of a width tag.
pub open spec fn type_text(t: Type) -> Seq<char> {
    if t == Type::I32 { "I32"@ } else { "I64"@ }
}

pub open spec fn binop_text(o: BinOp) -> Seq<char> {
    match o {
        BinOp::Add(_) => "add"@,
        BinOp::Sub(_) => "sub"@,
        BinOp::Mul(_) => "mul"@,
        BinOp::Div(_) => "div"@,
    }
}

pub open spec fn binop_type(o: BinOp) -> Type {
    match o {
        BinOp::Add(t) | BinOp::Sub(t) | BinOp::Mul(t) | BinOp::Div(t) => t,
    }
}

pub open spec fn cmp_text(o: CmpIR) -> Seq<char> {
    match o {
        CmpIR::Eq => "cmpeq"@,
        CmpIR::Ne => "cmpne"@,
        CmpIR::Lt => "cmplt"@,
        CmpIR::Le => "cmple"@,
        CmpIR::Gt => "cmpgt"@,
        CmpIR::Ge => "cmpge"@,
    }
}

/// The one-line text form of an instruction (without a line break).
pub open spec fn instr_text(i: InstrModel) -> Seq<char> {
    match i {
        InstrModel::LoadConst(v, d, _) => d + " = const "@ + int_text(v as int),
        InstrModel::Move(s, d, _) => d + " = "@ + s,
        InstrModel::BinOp(o, a, b, d) => d + " = "@ + binop_text(o) + " "@ + a + ", "@ + b
            + " ("@ + type_text(binop_type(o)) + ")"@,
        InstrModel::Cmp(o, a, b, d) => d + " = "@ + cmp_text(o) + " "@ + a + ", "@ + b,
        InstrModel::Read(d, t) => d + " = read ("@ + type_text(t) + ")"@,
        InstrModel::Label(n) => n + ":"@,
        InstrModel::BrIf(c, t, e) => "br_if "@ + c + ", "@ + t + ", "@ + e,
        InstrModel::Jmp(l) => "jmp "@ + l,
    }
}

/// Text of a whole program: each instruction's text followed by a line break.
pub open spec fn program_text(p: Seq<InstrModel>) -> Seq<char>
    decreases p.len(),
{
    if p.len() == 0 {
        Seq::empty()
    } else {
        program_text(p.drop_last()) + instr_text(p.last()) + "\n"@
    }
}

fn type_str(t: Type) -> (r: &'static str)
    ensures
        r@ == type_text(t),
{
    match t {
        Type::I32 => "I32",
        Type::I64 => "I64",
    }
}

impl BinOp {
    fn mnemonic(&self) -> (r: &'static str)
        ensures
            r@ == binop_text(*self),
    {
        match self {
            BinOp::Add(_) => "add",
            BinOp::Sub(_) => "sub",
            BinOp::Mul(_) => "mul",
            BinOp::Div(_) => "div",
        }
    }

    /// The width tag that the operator carries.
    pub fn width(&self) -> (r: Type)
        ensures
            r == binop_type(*self),
    {
        match self {
            BinOp::Add(t) | BinOp::Sub(t) | BinOp::Mul(t) | BinOp::Div(t) => *t,
        }
    }
}

impl CmpIR {
    fn mnemonic(&self) -> (r: &'static str)
        ensures
            r@ == cmp_text(*self),
    {
        match self {
            CmpIR::Eq => "cmpeq",
            CmpIR::Ne => "cmpne",
            CmpIR::Lt => "cmplt",
            CmpIR::Le => "cmple",
            CmpIR::Gt => "cmpgt",
            CmpIR::Ge => "cmpge",
        }
    }
}

impl Instr {
    /// Static energy cost of this instruction, from the fixed cost table.
    pub fn energy_cost(&self) -> (r: u32)
        ensures
            r as nat == cost_of(self@),
    {
        match self {
            Instr::LoadConst(..) => 1,
            Instr::Move(_, _, t) => match t {
                Type::I32 => 4,
                Type::I64 => 5,
            },
            Instr::BinOp(op, _, _, _) => match op {
                BinOp::Add(_) | BinOp::Sub(_) => 1,
                BinOp::Mul(t) => match t {
                    Type::I32 => 3,
                    Type::I64 => 5,
                },
                BinOp::Div(t) => match t {
                    Type::I32 => 20,
                    Type::I64 => 40,
                },
            },
            Instr::Cmp(..) => 1,
            Instr::Read(..) => 50,
            Instr::Label(_) => 0,
            Instr::BrIf(..) => 1,
            Instr::Jmp(_) => 1,
        }
    }

    /// The one-line text form of this instruction.
    pub fn to_text(&self) -> (r: String)
        ensures
            r@ == instr_text(self@),
    {
        let mut s = String::new();
        match self {
            Instr::LoadConst(v, d, _) => {
                s.append(d.as_str());
                s.append(" = const ");
                push_int(&mut s, *v);
            },
            Instr::Move(src, d, _) => {
                s.append(d.as_str());
                s.append(" = ");
                s.append(src.as_str());
            },
            Instr::BinOp(o, a, b, d) => {
                s.append(d.as_str());
                s.append(" = ");
                s.append(o.mnemonic());
                s.append(" ");
                s.append(a.as_str());
                s.append(", ");
                s.append(b.as_str());
                s.append(" (");
                s.append(type_str(o.width()));
                s.append(")");
            },
            Instr::Cmp(o, a, b, d) => {
                s.append(d.as_str());
                s.append(" = ");
                s.append(o.mnemonic());
                s.append(" ");
                s.append(a.as_str());
                s.append(", ");
                s.append(b.as_str());
            },
            Instr::Read(d, t) => {
                s.append(d.as_str());
                s.append(" = read (");
                s.append(type_str(*t));
                s.append(")");
            },
            Instr::Label(n) => {
                s.append(n.as_str());
                s.append(":");
            },
            Instr::BrIf(c, t, e) => {
                s.append("br_if ");
                s.append(c.as_str());
                s.append(", ");
                s.append(t.as_str());
                s.append(", ");
                s.append(e.as_str());
            },
            Instr::Jmp(l) => {
                s.append("jmp ");
                s.append(l.as_str());
            },
        }
        assert(s@ =~= instr_text(self@));
        s
    }
}

/// The text form of a whole program, one instruction per line.
pub fn render_program(p: &Vec<Instr>) -> (r: String)
    ensures
        r@ == program_text(prog_view(p@)),
{
    let mut s = String::new();
    let mut i: usize = 0;
    while i < p.len()
        invariant
            i <= p.len(),
            s@ == program_text(prog_view(p@.take(i as int))),
        decreases p.len() - i,
    {
        let line = p[i].to_text();
        s.append(line.as_str());
        s.append("\n");
        proof {
            assert(prog_view(p@.take(i + 1)).drop_last() =~= prog_view(p@.take(i as int)));
        }
        i += 1;
    }
    assert(p@.take(p.len() as int) =~= p@);
    s
}

/// Number of line breaks in `s`.
pub open spec fn count_newlines(s: Seq<char>) -> nat
    decreases s.len(),
{
    if s.len() == 0 {
        0
    } else {
        count_newlines(s.drop_last()) + if s.last() == '\n' { 1nat } else { 0nat }
    }
}

pub open spec fn no_newline(s: Seq<char>) -> bool {
    forall|k: int| 0 <= k < s.len() ==> s[k] != '\n'
}

/// None of the names of `i` holds a line break.
pub open spec fn names_single_line(i: InstrModel) -> bool {
    match i {
        InstrModel::LoadConst(_, d, _) => no_newline(d),
        InstrModel::Move(s, d, _) => no_newline(s) && no_newline(d),
        InstrModel::BinOp(_, a, b, d) | InstrModel::Cmp(_, a, b, d) => no_newline(a) && no_newline(b) && no_newline(d),
        InstrModel::Read(d, _) => no_newline(d),
        InstrModel::Label(n) => no_newline(n),
        InstrModel::BrIf(c, t, e) => no_newline(c) && no_newline(t) && no_newline(e),
        InstrModel::Jmp(l) => no_newline(l),
    }
}

proof fn lemma_count_concat(a: Seq<char>, b: Seq<char>)
    ensures
        count_newlines(a + b) == count_newlines(a) + count_newlines(b),
    decreases b.len(),
{
    if b.len() == 0 {
        assert(a + b =~= a);
    } else {
        assert((a + b).drop_last() =~= a + b.drop_last());
        lemma_count_concat(a, b.drop_last());
    }
}

proof fn lemma_count_none(s: Seq<char>)
    requires
        no_newline(s),
    ensures
        count_newlines(s) == 0,
    decreases s.len(),
{
    if s.len() > 0 {
        lemma_count_none(s.drop_last());
    }
}

proof fn lemma_nat_text_single_line(n: nat)
    ensures
        no_newline(crate::text::nat_text(n)),
    decreases n,
{
    if n >= 10 {
        lemma_nat_text_single_line(n / 10);
    }
}

proof fn lemma_instr_text_single_line(i: InstrModel)
    requires
        names_single_line(i),
    ensures
        no_newline(instr_text(i)),
{
    reveal_strlit(" = const ");
    reveal_strlit(" = ");
    reveal_strlit(" ");
    reveal_strlit(", ");
    reveal_strlit(" (");
    reveal_strlit(")");
    reveal_strlit(" = read (");
    reveal_strlit(":");
    reveal_strlit("br_if ");
    reveal_strlit("jmp ");
    reveal_strlit("-");
    reveal_strlit("add");
    reveal_strlit("sub");
    reveal_strlit("mul");
    reveal_strlit("div");
    reveal_strlit("cmpeq");
    reveal_strlit("cmpne");
    reveal_strlit("cmplt");
    reveal_strlit("cmple");
    reveal_strlit("cmpgt");
    reveal_strlit("cmpge");
    reveal_strlit("I32");
    reveal_strlit("I64");
    if let InstrModel::LoadConst(v, _, _) = i {
        if v < 0 {
            lemma_nat_text_single_line((-v) as nat);
        } else {
            lemma_nat_text_single_line(v as nat);
        }
    }
}

/// The text of a program has one line per instruction, provided no name
/// holds a line break; labels, whose cost is 0, have their line too.
pub proof fn lemma_text_lines(p: Seq<InstrModel>)
    requires
        forall|k: int| 0 <= k < p.len() ==> names_single_line(#[trigger] p[k]),
    ensures
        count_newlines(program_text(p)) == p.len(),
        forall|k: int| 0 <= k < p.len() && (#[trigger] p[k]) is Label ==> cost_of(p[k]) == 0
            && instr_text(p[k]) == p[k]->Label_0 + ":"@,
    decreases p.len(),
{
    if p.len() > 0 {
        lemma_text_lines(p.drop_last());
        lemma_instr_text_single_line(p.last());
        lemma_count_none(instr_text(p.last()));
        lemma_count_concat(program_text(p.drop_last()), instr_text(p.last()));
        lemma_count_concat(program_text(p.drop_last()) + instr_text(p.last()), "\n"@);
        reveal_strlit("\n");
        assert(("\n"@).drop_last() =~= Seq::<char>::empty());
        assert(count_newlines(("\n"@).drop_last()) == 0);
        assert(("\n"@).last() == '\n');
        assert(count_newlines("\n"@) == 1);
    }
}

} // verus!
