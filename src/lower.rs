//! The lowering engine: a syntax tree to a flat list of IR instructions,
//! plus the static energy estimate of such a list.
use vstd::prelude::*;
use crate::ast::{CmpOp, Expr, Type};
use crate::ir::{cost_of, energy, prog_view, BinOp, CmpIR, Instr, InstrModel};
use crate::input::{digit_value, digits_value, is_digit};
use crate::interpreter::labels_unique;
use crate::text::{digit_char, nat_text, push_nat};

verus! {

/// The static energy of a program: the sum of the cost of each instruction,
/// each counted once.
pub fn estimate_energy(instrs: &[Instr]) -> (r: u32)
    requires
        energy(prog_view(instrs@)) <= u32::MAX,
    ensures
        r as nat == energy(prog_view(instrs@)),
{
    let mut total: u32 = 0;
    let mut i: usize = 0;
    while i < instrs.len()
        invariant
            i <= instrs@.len(),
            energy(prog_view(instrs@)) <= u32::MAX,
            total as nat == energy(prog_view(instrs@.take(i as int))),
        decreases instrs@.len() - i,
    {
        proof {
            assert(prog_view(instrs@.take(i + 1)).drop_last() =~= prog_view(instrs@.take(i as int)));
            lemma_energy_prefix(prog_view(instrs@), i + 1);
            assert(prog_view(instrs@.take(i + 1)) =~= prog_view(instrs@).take(i + 1));
        }
        total = total + instrs[i].energy_cost();
        i += 1;
    }
    assert(instrs@.take(instrs@.len() as int) =~= instrs@);
    total
}

/// The energy of a prefix is at most the energy of the whole.
pub proof fn lemma_energy_prefix(p: Seq<InstrModel>, n: int)
    requires
        0 <= n <= p.len(),
    ensures
        energy(p.take(n)) <= energy(p),
    decreases p.len(),
{
    if n < p.len() {
        assert(p.drop_last().take(n) =~= p.take(n));
        lemma_energy_prefix(p.drop_last(), n);
    } else {
        assert(p.take(n) =~= p);
    }
}

/// Name of the temporary made from counter value `n`: `t<n>`.
pub open spec fn temp_name(n: nat) -> Seq<char> {
    "t"@ + nat_text(n)
}

/// Name of the label made from `prefix` and counter value `n`: `<prefix>_<n>`.
pub open spec fn label_name(prefix: Seq<char>, n: nat) -> Seq<char> {
    prefix + "_"@ + nat_text(n)
}

/// What lowering one node gives: the instructions appended, the name that
/// holds the node's value, and the two counters afterwards.
pub struct Lowered {
    pub code: Seq<InstrModel>,
    pub result: Seq<char>,
    pub temps: nat,
    pub labels: nat,
}

/// The static width of an expression: that of its leftmost operand for
/// arithmetic and comparisons, that of the last statement for a block.
pub open spec fn type_of(e: Expr) -> Type
    decreases e,
{
    match e {
        Expr::Int(_, t) | Expr::Var(_, t) | Expr::Assign(_, _, t) | Expr::Read(_, t) => t,
        Expr::Add(a, _) | Expr::Sub(a, _) | Expr::Mul(a, _) | Expr::Div(a, _) => type_of(*a),
        Expr::Cmp(_, a, _) => type_of(*a),
        Expr::Block(v) => if v.len() > 0 {
            type_of(v[v.len() - 1])
        } else {
            Type::I64
        },
        Expr::IfElse { .. } | Expr::While { .. } => Type::I64,
    }
}

/// The IR comparison for a source comparison.
pub open spec fn cmp_ir(o: CmpOp) -> CmpIR {
    match o {
        CmpOp::Eq => CmpIR::Eq,
        CmpOp::Ne => CmpIR::Ne,
        CmpOp::Lt => CmpIR::Lt,
        CmpOp::Le => CmpIR::Le,
        CmpOp::Gt => CmpIR::Gt,
        CmpOp::Ge => CmpIR::Ge,
    }
}

/// Left operand lowered into `x`, then right operand into `y`: one `BinOp`
/// into a fresh temporary.
pub open spec fn binop_out(op: BinOp, x: Lowered, y: Lowered) -> Lowered {
    let d = temp_name(y.temps);
    Lowered {
        code: x.code + y.code + seq![InstrModel::BinOp(op, x.result, y.result, d)],
        result: d,
        temps: y.temps + 1,
        labels: y.labels,
    }
}

pub open spec fn cmp_out(op: CmpIR, x: Lowered, y: Lowered) -> Lowered {
    let d = temp_name(y.temps);
    Lowered {
        code: x.code + y.code + seq![InstrModel::Cmp(op, x.result, y.result, d)],
        result: d,
        temps: y.temps + 1,
        labels: y.labels,
    }
}

pub open spec fn empty_out(t: nat, l: nat) -> Lowered {
    Lowered { code: Seq::empty(), result: Seq::empty(), temps: t, labels: l }
}

/// Lowering of the expression `e` with the temporary counter at `t` and the
/// label counter at `l`.
pub open spec fn lower_spec(e: Expr, t: nat, l: nat) -> Lowered
    decreases e, 0nat,
{
    match e {
        Expr::Int(v, ty) => Lowered {
            code: seq![InstrModel::LoadConst(v, temp_name(t), ty)],
            result: temp_name(t),
            temps: t + 1,
            labels: l,
        },
        Expr::Var(n, ty) => Lowered {
            code: seq![InstrModel::Move(n@, temp_name(t), ty)],
            result: temp_name(t),
            temps: t + 1,
            labels: l,
        },
        Expr::Read(n, ty) => Lowered {
            code: seq![InstrModel::Read(n@, ty)],
            result: n@,
            temps: t,
            labels: l,
        },
        Expr::Assign(n, x, ty) => {
            let a = lower_spec(*x, t, l);
            Lowered {
                code: a.code.push(InstrModel::Move(a.result, n@, ty)),
                result: n@,
                temps: a.temps,
                labels: a.labels,
            }
        },
        Expr::Add(a, b) => {
            let x = lower_spec(*a, t, l);
            binop_out(BinOp::Add(type_of(*a)), x, lower_spec(*b, x.temps, x.labels))
        },
        Expr::Sub(a, b) => {
            let x = lower_spec(*a, t, l);
            binop_out(BinOp::Sub(type_of(*a)), x, lower_spec(*b, x.temps, x.labels))
        },
        Expr::Mul(a, b) => {
            let x = lower_spec(*a, t, l);
            binop_out(BinOp::Mul(type_of(*a)), x, lower_spec(*b, x.temps, x.labels))
        },
        Expr::Div(a, b) => {
            let x = lower_spec(*a, t, l);
            binop_out(BinOp::Div(type_of(*a)), x, lower_spec(*b, x.temps, x.labels))
        },
        Expr::Cmp(o, a, b) => {
            let x = lower_spec(*a, t, l);
            cmp_out(cmp_ir(o), x, lower_spec(*b, x.temps, x.labels))
        },
        Expr::Block(v) => lower_seq(v, v.len() as int, t, l),
        Expr::IfElse { cond, then_branch, else_branch } => {
            let c = lower_spec(*cond, t, l);
            let then_l = label_name("then"@, c.labels);
            let else_l = label_name("else"@, c.labels + 1);
            let end_l = label_name("endif"@, c.labels + 2);
            let el = match else_branch {
                Some(es) => lower_seq(es, es.len() as int, c.temps, c.labels + 3),
                None => empty_out(c.temps, c.labels + 3),
            };
            let th = lower_seq(then_branch, then_branch.len() as int, el.temps, el.labels);
            Lowered {
                code: c.code + seq![
                    InstrModel::BrIf(c.result, then_l, else_l),
                    InstrModel::Label(else_l),
                ] + el.code + seq![InstrModel::Jmp(end_l), InstrModel::Label(then_l)] + th.code
                    + seq![InstrModel::Jmp(end_l), InstrModel::Label(end_l)],
                result: c.result,
                temps: th.temps,
                labels: th.labels,
            }
        },
        Expr::While { cond, body } => {
            let head = label_name("while_head"@, l);
            let body_l = label_name("while_body"@, l + 1);
            let end = label_name("while_end"@, l + 2);
            let c = lower_spec(*cond, t, l + 3);
            let b = lower_seq(body, body.len() as int, c.temps, c.labels);
            Lowered {
                code: seq![InstrModel::Label(head)] + c.code + seq![
                    InstrModel::BrIf(c.result, body_l, end),
                    InstrModel::Label(body_l),
                ] + b.code + seq![InstrModel::Jmp(head), InstrModel::Label(end)],
                result: c.result,
                temps: b.temps,
                labels: b.labels,
            }
        },
    }
}

/// Lowering of the first `n` statements of `v` in order; the result is that
/// of the last one lowered (empty when `n` is 0).
pub open spec fn lower_seq(v: Vec<Expr>, n: int, t: nat, l: nat) -> Lowered
    decreases v, n,
{
    if n <= 0 || n > v.len() {
        empty_out(t, l)
    } else {
        let p = lower_seq(v, n - 1, t, l);
        let x = lower_spec(v[n - 1], p.temps, p.labels);
        Lowered { code: p.code + x.code, result: x.result, temps: x.temps, labels: x.labels }
    }
}


/// Lowering never moves a counter back.
pub proof fn lemma_lower_monotone(e: Expr, t: nat, l: nat)
    ensures
        lower_spec(e, t, l).temps >= t,
        lower_spec(e, t, l).labels >= l,
    decreases e, 0nat,
{
    match e {
        Expr::Assign(_, x, _) => lemma_lower_monotone(*x, t, l),
        Expr::Add(a, b) | Expr::Sub(a, b) | Expr::Mul(a, b) | Expr::Div(a, b) | Expr::Cmp(_, a, b) => {
            let x = lower_spec(*a, t, l);
            lemma_lower_monotone(*a, t, l);
            lemma_lower_monotone(*b, x.temps, x.labels);
        },
        Expr::Block(v) => lemma_seq_monotone(v, v.len() as int, t, l),
        Expr::IfElse { cond, then_branch, else_branch } => {
            let c = lower_spec(*cond, t, l);
            lemma_lower_monotone(*cond, t, l);
            let el = match else_branch {
                Some(es) => lower_seq(es, es.len() as int, c.temps, c.labels + 3),
                None => empty_out(c.temps, c.labels + 3),
            };
            match else_branch {
                Some(es) => lemma_seq_monotone(es, es.len() as int, c.temps, c.labels + 3),
                None => {},
            }
            lemma_seq_monotone(then_branch, then_branch.len() as int, el.temps, el.labels);
        },
        Expr::While { cond, body } => {
            let c = lower_spec(*cond, t, l + 3);
            lemma_lower_monotone(*cond, t, l + 3);
            lemma_seq_monotone(body, body.len() as int, c.temps, c.labels);
        },
        _ => {},
    }
}

/// Lowering a longer prefix of a statement list never leaves a counter lower.
pub proof fn lemma_seq_monotone(v: Vec<Expr>, n: int, t: nat, l: nat)
    requires
        0 <= n <= v.len(),
    ensures
        lower_seq(v, n, t, l).temps >= t,
        lower_seq(v, n, t, l).labels >= l,
        forall|i: int|
            0 <= i <= n ==> lower_seq(v, i, t, l).temps <= lower_seq(v, n, t, l).temps
                && lower_seq(v, i, t, l).labels <= lower_seq(v, n, t, l).labels,
    decreases v, 1nat, n,
{
    if n > 0 {
        let p = lower_seq(v, n - 1, t, l);
        lemma_seq_monotone(v, n - 1, t, l);
        lemma_lower_monotone(v[n - 1], p.temps, p.labels);
    }
}


/// One compilation unit: the two name counters and the program built so far.
pub struct Lower {
    next_temp: usize,
    next_label: usize,
    pub code: Vec<Instr>,
}

impl Lower {
    /// Value of the temporary counter: the next temporary is `t<temp_count>`.
    pub closed spec fn temp_count(&self) -> nat {
        self.next_temp as nat
    }

    /// Value of the label counter.
    pub closed spec fn label_count(&self) -> nat {
        self.next_label as nat
    }

    /// The program built so far.
    pub closed spec fn program(&self) -> Seq<InstrModel> {
        prog_view(self.code@)
    }

    /// Each label of the program is defined once, under a generated name
    /// whose number the label counter has passed, and every branch or jump
    /// target of the program is defined in it.
    pub open spec fn wf(&self) -> bool {
        &&& labels_numbered(self.program(), num_range(0, self.label_count() as int))
        &&& labels_unique(self.program())
        &&& targets_defined(self.program())
    }

    /// Both counters fit in `usize`.
    pub proof fn lemma_counters_fit(&self)
        ensures
            self.temp_count() <= usize::MAX,
            self.label_count() <= usize::MAX,
    {
    }

    /// What lowering `e` from the present counters gives.
    pub open spec fn lowering_of(&self, e: Expr) -> Lowered {
        lower_spec(e, self.temp_count(), self.label_count())
    }

    /// Both counters at 0 and no code.
    pub fn new() -> (r: Self)
        ensures
            r.temp_count() == 0,
            r.label_count() == 0,
            r.program().len() == 0,
            r.wf(),
    {
        Lower { next_temp: 0, next_label: 0, code: Vec::new() }
    }

    /// The program built so far.
    pub fn instructions(&self) -> (r: &Vec<Instr>)
        ensures
            prog_view(r@) == self.program(),
    {
        &self.code
    }

    fn fresh(&mut self) -> (r: String)
        requires
            old(self).next_temp < usize::MAX,
        ensures
            r@ == temp_name(old(self).next_temp as nat),
            final(self).next_temp == old(self).next_temp + 1,
            final(self).next_label == old(self).next_label,
            final(self).code == old(self).code,
    {
        let mut t = String::from_str("t");
        push_nat(&mut t, self.next_temp as u64);
        self.next_temp = self.next_temp + 1;
        t
    }

    fn fresh_label(&mut self, prefix: &str) -> (r: String)
        requires
            old(self).next_label < usize::MAX,
        ensures
            r@ == label_name(prefix@, old(self).next_label as nat),
            final(self).next_label == old(self).next_label + 1,
            final(self).next_temp == old(self).next_temp,
            final(self).code == old(self).code,
    {
        let mut l = String::from_str(prefix);
        l.append("_");
        push_nat(&mut l, self.next_label as u64);
        assert(l@ =~= label_name(prefix@, old(self).next_label as nat));
        self.next_label = self.next_label + 1;
        l
    }

    fn emit(&mut self, i: Instr)
        ensures
            prog_view(final(self).code@) == prog_view(old(self).code@).push(i@),
            final(self).next_temp == old(self).next_temp,
            final(self).next_label == old(self).next_label,
    {
        self.code.push(i);
        assert(prog_view(self.code@) =~= prog_view(old(self).code@).push(i@));
    }

    /// The static width of `e`.
    fn get_type(&self, e: &Expr) -> (r: Type)
        ensures
            r == type_of(*e),
        decreases e,
    {
        match e {
            Expr::Int(_, t) | Expr::Var(_, t) | Expr::Assign(_, _, t) | Expr::Read(_, t) => *t,
            Expr::Add(a, _) | Expr::Sub(a, _) | Expr::Mul(a, _) | Expr::Div(a, _) => self.get_type(a),
            Expr::Cmp(_, a, _) => self.get_type(a),
            Expr::Block(v) => if v.len() > 0 {
                self.get_type(&v[v.len() - 1])
            } else {
                Type::I64
            },
            Expr::IfElse { .. } | Expr::While { .. } => Type::I64,
        }
    }

    /// Appends the instructions for `e` to `code` and returns the name that
    /// holds its value.
    pub fn lower_expr(&mut self, e: &Expr) -> (r: String)
        requires
            old(self).lowering_of(*e).temps <= usize::MAX,
            old(self).lowering_of(*e).labels <= usize::MAX,
        ensures
            final(self).program() == old(self).program() + old(self).lowering_of(*e).code,
            r@ == old(self).lowering_of(*e).result,
            final(self).temp_count() == old(self).lowering_of(*e).temps,
            final(self).label_count() == old(self).lowering_of(*e).labels,
            old(self).wf() ==> final(self).wf(),
        decreases e, 2nat,
    {
        let ghost t0 = self.next_temp as nat;
        let ghost l0 = self.next_label as nat;
        let ghost c0 = prog_view(self.code@);
        let ghost was_wf = self.wf();
        proof {
            lemma_lower_monotone(*e, t0, l0);
        }
        let r = self.lower_node(e);
        proof {
            if was_wf {
                let o = lower_spec(*e, t0, l0);
                lemma_lowering_labels(*e, t0, l0);
                lemma_join(c0, o.code, num_range(0, l0 as int), num_range(l0 as int, o.labels as int));
                lemma_widen(c0 + o.code, num_range(0, l0 as int).union(num_range(l0 as int, o.labels as int)),
                    num_range(0, o.labels as int));
                let empty = Seq::<InstrModel>::empty();
                lemma_lowering_targets(*e, t0, l0);
                lemma_targets_lift(c0, empty, o.code);
                assert(empty + c0 + o.code =~= c0 + o.code);
                lemma_targets_lift(o.code, c0, empty);
                assert(c0 + o.code + empty =~= c0 + o.code);
                lemma_targets_concat(c0, o.code, c0 + o.code);
            }
        }
        r
    }

    fn lower_node(&mut self, e: &Expr) -> (r: String)
        requires
            old(self).lowering_of(*e).temps <= usize::MAX,
            old(self).lowering_of(*e).labels <= usize::MAX,
        ensures
            final(self).program() == old(self).program() + old(self).lowering_of(*e).code,
            r@ == old(self).lowering_of(*e).result,
            final(self).temp_count() == old(self).lowering_of(*e).temps,
            final(self).label_count() == old(self).lowering_of(*e).labels,
        decreases e, 1nat,
    {
        let ghost t0 = self.next_temp as nat;
        let ghost l0 = self.next_label as nat;
        let ghost c0 = prog_view(self.code@);
        proof {
            lemma_lower_monotone(*e, t0, l0);
        }
        match e {
            Expr::Int(v, typ) => {
                let t = self.fresh();
                self.emit(Instr::LoadConst(*v, t.clone(), *typ));
                t
            },
            Expr::Var(name, typ) => {
                let t = self.fresh();
                self.emit(Instr::Move(name.clone(), t.clone(), *typ));
                t
            },
            Expr::Read(name, typ) => {
                self.emit(Instr::Read(name.clone(), *typ));
                name.clone()
            },
            Expr::Assign(name, x, typ) => {
                let src = self.lower_expr(x);
                self.emit(Instr::Move(src, name.clone(), *typ));
                assert(prog_view(self.code@) =~= c0 + lower_spec(*e, t0, l0).code);
                name.clone()
            },
            Expr::Add(..) | Expr::Sub(..) | Expr::Mul(..) | Expr::Div(..) => self.lower_binop(e),
            Expr::Cmp(..) => self.lower_cmp(e),
            Expr::Block(stmts) => self.lower_block(stmts),
            Expr::IfElse { .. } => self.lower_if(e),
            Expr::While { .. } => self.lower_while(e),
        }
    }

    fn lower_cmp(&mut self, e: &Expr) -> (r: String)
        requires
            e is Cmp,
            old(self).lowering_of(*e).temps <= usize::MAX,
            old(self).lowering_of(*e).labels <= usize::MAX,
        ensures
            final(self).program() == old(self).program() + old(self).lowering_of(*e).code,
            r@ == old(self).lowering_of(*e).result,
            final(self).temp_count() == old(self).lowering_of(*e).temps,
            final(self).label_count() == old(self).lowering_of(*e).labels,
        decreases e, 0nat,
    {
        let ghost t0 = self.next_temp as nat;
        let ghost l0 = self.next_label as nat;
        let ghost c0 = prog_view(self.code@);
        match e {
            Expr::Cmp(op, a, b) => {
                proof {
                    let x = lower_spec(**a, t0, l0);
                    lemma_lower_monotone(**a, t0, l0);
                    lemma_lower_monotone(**b, x.temps, x.labels);
                }
                let la = self.lower_expr(a);
                let lb = self.lower_expr(b);
                let rd = self.fresh();
                let irop = match op {
                    CmpOp::Eq => CmpIR::Eq,
                    CmpOp::Ne => CmpIR::Ne,
                    CmpOp::Lt => CmpIR::Lt,
                    CmpOp::Le => CmpIR::Le,
                    CmpOp::Gt => CmpIR::Gt,
                    CmpOp::Ge => CmpIR::Ge,
                };
                self.emit(Instr::Cmp(irop, la, lb, rd.clone()));
                assert(prog_view(self.code@) =~= c0 + lower_spec(*e, t0, l0).code);
                rd
            },
            _ => String::new(),
        }
    }

    fn lower_if(&mut self, e: &Expr) -> (r: String)
        requires
            e is IfElse,
            old(self).lowering_of(*e).temps <= usize::MAX,
            old(self).lowering_of(*e).labels <= usize::MAX,
        ensures
            final(self).program() == old(self).program() + old(self).lowering_of(*e).code,
            r@ == old(self).lowering_of(*e).result,
            final(self).temp_count() == old(self).lowering_of(*e).temps,
            final(self).label_count() == old(self).lowering_of(*e).labels,
        decreases e, 0nat,
    {
        let ghost t0 = self.next_temp as nat;
        let ghost l0 = self.next_label as nat;
        let ghost c0 = prog_view(self.code@);
        match e {
            Expr::IfElse { cond, then_branch, else_branch } => {
                let ghost c = lower_spec(**cond, t0, l0);
                proof {
                    lemma_lower_monotone(**cond, t0, l0);
                    match else_branch {
                        Some(es) => lemma_seq_monotone(*es, es.len() as int, c.temps, c.labels + 3),
                        None => {},
                    }
                    let el = match else_branch {
                        Some(es) => lower_seq(*es, es.len() as int, c.temps, c.labels + 3),
                        None => empty_out(c.temps, c.labels + 3),
                    };
                    lemma_seq_monotone(*then_branch, then_branch.len() as int, el.temps, el.labels);
                }
                let cond_t = self.lower_expr(cond);
                let then_l = self.fresh_label("then");
                let else_l = self.fresh_label("else");
                let end_l = self.fresh_label("endif");
                self.emit(Instr::BrIf(cond_t.clone(), then_l.clone(), else_l.clone()));
                self.emit(Instr::Label(else_l));
                match else_branch {
                    Some(es) => {
                        self.lower_block(es);
                    },
                    None => {},
                }
                self.emit(Instr::Jmp(end_l.clone()));
                self.emit(Instr::Label(then_l));
                self.lower_block(then_branch);
                self.emit(Instr::Jmp(end_l.clone()));
                self.emit(Instr::Label(end_l));
                assert(prog_view(self.code@) =~= c0 + lower_spec(*e, t0, l0).code);
                cond_t
            },
            _ => String::new(),
        }
    }

    fn lower_while(&mut self, e: &Expr) -> (r: String)
        requires
            e is While,
            old(self).lowering_of(*e).temps <= usize::MAX,
            old(self).lowering_of(*e).labels <= usize::MAX,
        ensures
            final(self).program() == old(self).program() + old(self).lowering_of(*e).code,
            r@ == old(self).lowering_of(*e).result,
            final(self).temp_count() == old(self).lowering_of(*e).temps,
            final(self).label_count() == old(self).lowering_of(*e).labels,
        decreases e, 0nat,
    {
        let ghost t0 = self.next_temp as nat;
        let ghost l0 = self.next_label as nat;
        let ghost c0 = prog_view(self.code@);
        match e {
            Expr::While { cond, body } => {
                proof {
                    let c = lower_spec(**cond, t0, l0 + 3);
                    lemma_lower_monotone(**cond, t0, l0 + 3);
                    lemma_seq_monotone(*body, body.len() as int, c.temps, c.labels);
                }
                let head = self.fresh_label("while_head");
                let body_l = self.fresh_label("while_body");
                let end = self.fresh_label("while_end");
                self.emit(Instr::Label(head.clone()));
                let cond_t = self.lower_expr(cond);
                self.emit(Instr::BrIf(cond_t.clone(), body_l.clone(), end.clone()));
                self.emit(Instr::Label(body_l));
                self.lower_block(body);
                self.emit(Instr::Jmp(head));
                self.emit(Instr::Label(end));
                assert(prog_view(self.code@) =~= c0 + lower_spec(*e, t0, l0).code);
                cond_t
            },
            _ => String::new(),
        }
    }

    /// Lowers the statements of `v` in order; returns the last one's result,
    /// or an empty name for an empty list.
    fn lower_block(&mut self, v: &Vec<Expr>) -> (r: String)
        requires
            lower_seq(*v, v.len() as int, old(self).temp_count(), old(self).label_count()).temps <= usize::MAX,
            lower_seq(*v, v.len() as int, old(self).temp_count(), old(self).label_count()).labels <= usize::MAX,
        ensures
            ({
                let o = lower_seq(*v, v.len() as int, old(self).temp_count(), old(self).label_count());
                &&& prog_view(final(self).code@) == prog_view(old(self).code@) + o.code
                &&& r@ == o.result
                &&& final(self).temp_count() == o.temps
                &&& final(self).label_count() == o.labels
            }),
        decreases v, 3nat,
    {
        let ghost t0 = self.next_temp as nat;
        let ghost l0 = self.next_label as nat;
        let ghost c0 = prog_view(self.code@);
        proof {
            lemma_seq_monotone(*v, v.len() as int, t0, l0);
        }
        let mut last = String::new();
        let mut i: usize = 0;
        while i < v.len()
            invariant
                i <= v.len(),
                t0 == old(self).next_temp,
                l0 == old(self).next_label,
                c0 == prog_view(old(self).code@),
                lower_seq(*v, v.len() as int, t0, l0).temps <= usize::MAX,
                lower_seq(*v, v.len() as int, t0, l0).labels <= usize::MAX,
                forall|k: int|
                    0 <= k <= v.len() ==> (#[trigger] lower_seq(*v, k, t0, l0)).temps <= lower_seq(*v, v.len() as int, t0, l0).temps
                        && lower_seq(*v, k, t0, l0).labels <= lower_seq(*v, v.len() as int, t0, l0).labels,
                prog_view(self.code@) == c0 + lower_seq(*v, i as int, t0, l0).code,
                last@ == lower_seq(*v, i as int, t0, l0).result,
                self.next_temp == lower_seq(*v, i as int, t0, l0).temps,
                self.next_label == lower_seq(*v, i as int, t0, l0).labels,
            decreases v.len() - i,
        {
            assert(lower_seq(*v, i + 1, t0, l0).temps <= lower_seq(*v, v.len() as int, t0, l0).temps);
            last = self.lower_expr(&v[i]);
            i += 1;
            assert(prog_view(self.code@) =~= c0 + lower_seq(*v, i as int, t0, l0).code);
        }
        last
    }

    fn lower_binop(&mut self, e: &Expr) -> (r: String)
        requires
            e is Add || e is Sub || e is Mul || e is Div,
            old(self).lowering_of(*e).temps <= usize::MAX,
            old(self).lowering_of(*e).labels <= usize::MAX,
        ensures
            final(self).program() == old(self).program() + old(self).lowering_of(*e).code,
            r@ == old(self).lowering_of(*e).result,
            final(self).temp_count() == old(self).lowering_of(*e).temps,
            final(self).label_count() == old(self).lowering_of(*e).labels,
        decreases e, 0nat,
    {
        let ghost t0 = self.next_temp as nat;
        let ghost l0 = self.next_label as nat;
        let ghost c0 = prog_view(self.code@);
        let (a, b, op) = match e {
            Expr::Add(a, b) => (a, b, BinOp::Add(self.get_type(a))),
            Expr::Sub(a, b) => (a, b, BinOp::Sub(self.get_type(a))),
            Expr::Mul(a, b) => (a, b, BinOp::Mul(self.get_type(a))),
            Expr::Div(a, b) => (a, b, BinOp::Div(self.get_type(a))),
            _ => {
                return String::new();
            },
        };
        let ghost x = lower_spec(**a, t0, l0);
        proof {
            lemma_lower_monotone(**a, t0, l0);
            lemma_lower_monotone(**b, x.temps, x.labels);
            assert(lower_spec(*e, t0, l0) == binop_out(op, x, lower_spec(**b, x.temps, x.labels)));
        }
        let la = self.lower_expr(a);
        let lb = self.lower_expr(b);
        let rd = self.fresh();
        self.emit(Instr::BinOp(op, la, lb, rd.clone()));
        assert(prog_view(self.code@) =~= c0 + lower_spec(*e, t0, l0).code);
        rd
    }
}


/// A literal lowers to exactly one `LoadConst` of its value into a fresh
/// temporary, at cost 1 whatever its width.
pub proof fn lemma_literal_lowering(v: i64, ty: Type, t: nat, l: nat)
    ensures
        lower_spec(Expr::Int(v, ty), t, l).code.len() == 1,
        lower_spec(Expr::Int(v, ty), t, l).code[0] == InstrModel::LoadConst(v, temp_name(t), ty),
        cost_of(lower_spec(Expr::Int(v, ty), t, l).code[0]) == 1,
        energy(lower_spec(Expr::Int(v, ty), t, l).code) == 1,
{
    let c = lower_spec(Expr::Int(v, ty), t, l).code;
    assert(c.drop_last() =~= Seq::<InstrModel>::empty());
    assert(energy(c.drop_last()) == 0);
}

/// A conditional lowers to: its condition, `BrIf(cond, then, else)`,
/// `Label(else)`, the else statements, `Jmp(end)`, `Label(then)`, the then
/// statements, `Jmp(end)`, `Label(end)`; its value is the condition's.
pub proof fn lemma_conditional_layout(cond: Box<Expr>, then_branch: Vec<Expr>, else_branch: Option<Vec<Expr>>, t: nat, l: nat)
    ensures
        ({
            let o = lower_spec(Expr::IfElse { cond, then_branch, else_branch }, t, l);
            let c = lower_spec(*cond, t, l);
            let then_l = label_name("then"@, c.labels);
            let else_l = label_name("else"@, c.labels + 1);
            let end_l = label_name("endif"@, c.labels + 2);
            let el = match else_branch {
                Some(es) => lower_seq(es, es.len() as int, c.temps, c.labels + 3),
                None => empty_out(c.temps, c.labels + 3),
            };
            let th = lower_seq(then_branch, then_branch.len() as int, el.temps, el.labels);
            &&& o.code == c.code + seq![InstrModel::BrIf(c.result, then_l, else_l), InstrModel::Label(else_l)]
                + el.code + seq![InstrModel::Jmp(end_l), InstrModel::Label(then_l)] + th.code
                + seq![InstrModel::Jmp(end_l), InstrModel::Label(end_l)]
            &&& o.result == c.result
        }),
{
}

/// A loop lowers to: `Label(head)`, its condition, `BrIf(cond, body, end)`,
/// `Label(body)`, the body statements, `Jmp(head)`, `Label(end)`; its value
/// is the condition's.
pub proof fn lemma_loop_layout(cond: Box<Expr>, body: Vec<Expr>, t: nat, l: nat)
    ensures
        ({
            let o = lower_spec(Expr::While { cond, body }, t, l);
            let head = label_name("while_head"@, l);
            let body_l = label_name("while_body"@, l + 1);
            let end = label_name("while_end"@, l + 2);
            let c = lower_spec(*cond, t, l + 3);
            let b = lower_seq(body, body.len() as int, c.temps, c.labels);
            &&& o.code == seq![InstrModel::Label(head)] + c.code + seq![
                InstrModel::BrIf(c.result, body_l, end),
                InstrModel::Label(body_l),
            ] + b.code + seq![InstrModel::Jmp(head), InstrModel::Label(end)]
            &&& o.result == c.result
        }),
{
}

/// The energy of two programs one after the other is the sum of their energies.
pub proof fn lemma_energy_concat(a: Seq<InstrModel>, b: Seq<InstrModel>)
    ensures
        energy(a + b) == energy(a) + energy(b),
    decreases b.len(),
{
    if b.len() == 0 {
        assert(a + b =~= a);
    } else {
        assert((a + b).drop_last() =~= a + b.drop_last());
        lemma_energy_concat(a, b.drop_last());
    }
}

/// The static energy of a lowered loop counts its condition and its body
/// once, plus one `BrIf` and one `Jmp`, however many times it runs.
pub proof fn lemma_loop_energy(cond: Box<Expr>, body: Vec<Expr>, t: nat, l: nat)
    ensures
        ({
            let c = lower_spec(*cond, t, l + 3);
            let b = lower_seq(body, body.len() as int, c.temps, c.labels);
            energy(lower_spec(Expr::While { cond, body }, t, l).code) == energy(c.code) + energy(b.code) + 2
        }),
{
    let head = label_name("while_head"@, l);
    let body_l = label_name("while_body"@, l + 1);
    let end = label_name("while_end"@, l + 2);
    let c = lower_spec(*cond, t, l + 3);
    let b = lower_seq(body, body.len() as int, c.temps, c.labels);
    let s1 = seq![InstrModel::Label(head)];
    let s2 = seq![InstrModel::BrIf(c.result, body_l, end), InstrModel::Label(body_l)];
    let s3 = seq![InstrModel::Jmp(head), InstrModel::Label(end)];
    lemma_energy_concat(s1, c.code);
    lemma_energy_concat(s1 + c.code, s2);
    lemma_energy_concat(s1 + c.code + s2, b.code);
    lemma_energy_concat(s1 + c.code + s2 + b.code, s3);
    assert(s1.drop_last() =~= Seq::<InstrModel>::empty());
    assert(s2.drop_last().drop_last() =~= Seq::<InstrModel>::empty());
    assert(s3.drop_last().drop_last() =~= Seq::<InstrModel>::empty());
    assert(energy(s2.drop_last().drop_last()) == 0);
    assert(energy(s2.drop_last()) == 1);
    assert(energy(s2) == 1);
    assert(energy(s3.drop_last().drop_last()) == 0);
    assert(energy(s3.drop_last()) == 1);
    assert(energy(s3) == 1);
    assert(energy(s1.drop_last()) == 0);
}

proof fn lemma_nat_text_digits(n: nat)
    ensures
        forall|i: int| 0 <= i < nat_text(n).len() ==> is_digit(#[trigger] nat_text(n)[i]),
        nat_text(n).len() > 0,
        digits_value(nat_text(n)) == n,
    decreases n,
{
    let d = if n < 10 { n } else { n % 10 };
    assert(is_digit(digit_char(d)) && digit_value(digit_char(d)) == d);
    if n < 10 {
        assert(nat_text(n).drop_last() =~= Seq::<char>::empty());
        assert(digits_value(nat_text(n).drop_last()) == 0);
        assert(digits_value(nat_text(n)) == digits_value(nat_text(n).drop_last()) * 10 + digit_value(nat_text(n).last()));
    } else {
        lemma_nat_text_digits(n / 10);
        assert(nat_text(n).drop_last() =~= nat_text(n / 10));
        assert(nat_text(n).last() == digit_char(n % 10));
        assert((n / 10) * 10 + n % 10 == n) by (nonlinear_arith);
        assert(digits_value(nat_text(n)) == digits_value(nat_text(n).drop_last()) * 10 + digit_value(nat_text(n).last()));
    }
}

/// Two generated label names are equal only if their numbers are.
pub proof fn lemma_label_name_injective(p1: Seq<char>, k1: nat, p2: Seq<char>, k2: nat)
    requires
        label_name(p1, k1) == label_name(p2, k2),
    ensures
        k1 == k2,
{
    let a = nat_text(k1);
    let b = nat_text(k2);
    let s = label_name(p1, k1);
    lemma_nat_text_digits(k1);
    lemma_nat_text_digits(k2);
    reveal_strlit("_");
    assert(!is_digit('_'));
    assert(s == p1 + "_"@ + a);
    assert(s == p2 + "_"@ + b);
    if a.len() < b.len() {
        let idx = s.len() - a.len() - 1;
        assert(s[idx] == '_');
        assert(s[idx] == b[idx - (s.len() - b.len())]);
    } else if b.len() < a.len() {
        let idx = s.len() - b.len() - 1;
        assert(s[idx] == '_');
        assert(s[idx] == a[idx - (s.len() - a.len())]);
    } else {
        assert(a =~= s.subrange(s.len() - a.len(), s.len() as int));
        assert(b =~= s.subrange(s.len() - b.len(), s.len() as int));
    }
}

/// Two temporaries are the same name only if they come from the same
/// counter value, so each call of the temporary counter gives a new name.
pub proof fn lemma_temp_name_injective(a: nat, b: nat)
    requires
        temp_name(a) == temp_name(b),
    ensures
        a == b,
{
    lemma_nat_text_digits(a);
    lemma_nat_text_digits(b);
    reveal_strlit("t");
    assert(nat_text(a) =~= temp_name(a).drop_first());
    assert(nat_text(b) =~= temp_name(b).drop_first());
}

/// Every label that `code` defines is a generated name whose number is in `nums`.
pub open spec fn labels_numbered(code: Seq<InstrModel>, nums: Set<int>) -> bool {
    forall|i: int|
        0 <= i < code.len() && (#[trigger] code[i]) is Label ==> exists|p: Seq<char>, k: nat|
            nums.contains(k as int) && code[i]->Label_0 == #[trigger] label_name(p, k)
}

/// The numbers from `lo` up to, not including, `hi`.
pub open spec fn num_range(lo: int, hi: int) -> Set<int> {
    Set::new(|k: int| lo <= k < hi)
}

proof fn lemma_join(a: Seq<InstrModel>, b: Seq<InstrModel>, sa: Set<int>, sb: Set<int>)
    requires
        labels_numbered(a, sa),
        labels_numbered(b, sb),
        labels_unique(a),
        labels_unique(b),
        forall|k: int| sa.contains(k) ==> !sb.contains(k),
    ensures
        labels_numbered(a + b, sa.union(sb)),
        labels_unique(a + b),
{
    let c = a + b;
    assert forall|i: int| 0 <= i < c.len() && (#[trigger] c[i]) is Label implies exists|p: Seq<char>, k: nat|
        sa.union(sb).contains(k as int) && c[i]->Label_0 == #[trigger] label_name(p, k) by {
        if i < a.len() {
            assert(c[i] == a[i]);
        } else {
            assert(c[i] == b[i - a.len()]);
        }
    }
    assert forall|i: int, j: int| 0 <= i < j < c.len() && c[j] is Label implies c[i] != c[j] by {
        if j < a.len() {
            assert(c[i] == a[i] && c[j] == a[j]);
        } else if i >= a.len() {
            assert(c[i] == b[i - a.len()] && c[j] == b[j - a.len()]);
        } else {
            assert(c[i] == a[i] && c[j] == b[j - a.len()]);
            if c[i] == c[j] {
                let (p1, k1) = choose|p: Seq<char>, k: nat| sa.contains(k as int) && a[i]->Label_0 == label_name(p, k);
                let (p2, k2) = choose|p: Seq<char>, k: nat| sb.contains(k as int) && b[j - a.len()]->Label_0 == label_name(p, k);
                lemma_label_name_injective(p1, k1, p2, k2);
            }
        }
    }
}

proof fn lemma_widen(code: Seq<InstrModel>, s1: Set<int>, s2: Set<int>)
    requires
        labels_numbered(code, s1),
        forall|k: int| s1.contains(k) ==> s2.contains(k),
    ensures
        labels_numbered(code, s2),
{
}

/// A short run of instructions that ends with the one label it defines.
proof fn lemma_piece(s: Seq<InstrModel>, p: Seq<char>, k: nat)
    requires
        s.len() > 0,
        forall|i: int| 0 <= i < s.len() - 1 ==> !(#[trigger] s[i] is Label),
        s.last() == InstrModel::Label(label_name(p, k)),
    ensures
        labels_numbered(s, Set::empty().insert(k as int)),
        labels_unique(s),
{
    assert forall|i: int| 0 <= i < s.len() && (#[trigger] s[i]) is Label implies exists|q: Seq<char>, m: nat|
        Set::<int>::empty().insert(k as int).contains(m as int) && s[i]->Label_0 == #[trigger] label_name(q, m) by {
        assert(i == s.len() - 1);
        assert(s[i]->Label_0 == label_name(p, k));
    }
}

proof fn lemma_no_labels(s: Seq<InstrModel>)
    requires
        forall|i: int| 0 <= i < s.len() ==> !(#[trigger] s[i] is Label),
    ensures
        labels_numbered(s, Set::empty()),
        labels_unique(s),
{
}

/// Lowering defines each label once, and only labels numbered from the
/// label counter before the call up to the counter after it.
pub proof fn lemma_lowering_labels(e: Expr, t: nat, l: nat)
    ensures
        labels_numbered(lower_spec(e, t, l).code, num_range(l as int, lower_spec(e, t, l).labels as int)),
        labels_unique(lower_spec(e, t, l).code),
    decreases e, 1nat,
{
    let o = lower_spec(e, t, l);
    lemma_lower_monotone(e, t, l);
    match e {
        Expr::Int(..) | Expr::Var(..) | Expr::Read(..) => {
            lemma_no_labels(o.code);
            lemma_widen(o.code, Set::empty(), num_range(l as int, o.labels as int));
        },
        Expr::Assign(_, x, _) => {
            let a = lower_spec(*x, t, l);
            lemma_lowering_labels(*x, t, l);
            let m = o.code.subrange(a.code.len() as int, o.code.len() as int);
            lemma_no_labels(m);
            lemma_join(a.code, m, num_range(l as int, a.labels as int), Set::empty());
            assert(a.code + m =~= o.code);
            lemma_widen(o.code, num_range(l as int, a.labels as int).union(Set::empty()), num_range(l as int, o.labels as int));
        },
        Expr::Add(a, b) | Expr::Sub(a, b) | Expr::Mul(a, b) | Expr::Div(a, b) | Expr::Cmp(_, a, b) => {
            let x = lower_spec(*a, t, l);
            let y = lower_spec(*b, x.temps, x.labels);
            lemma_lowering_labels(*a, t, l);
            lemma_lowering_labels(*b, x.temps, x.labels);
            lemma_lower_monotone(*a, t, l);
            lemma_lower_monotone(*b, x.temps, x.labels);
            let sx = num_range(l as int, x.labels as int);
            let sy = num_range(x.labels as int, y.labels as int);
            lemma_join(x.code, y.code, sx, sy);
            let m = o.code.subrange((x.code.len() + y.code.len()) as int, o.code.len() as int);
            lemma_no_labels(m);
            lemma_join(x.code + y.code, m, sx.union(sy), Set::empty());
            assert(x.code + y.code + m =~= o.code);
            lemma_widen(o.code, sx.union(sy).union(Set::empty()), num_range(l as int, o.labels as int));
        },
        Expr::Block(v) => lemma_seq_labels(v, v.len() as int, t, l),
        Expr::IfElse { .. } => lemma_labels_if(e, t, l),
        Expr::While { .. } => lemma_labels_while(e, t, l),
    }
}

/// The conditional case of `lemma_lowering_labels`.
proof fn lemma_labels_if(e: Expr, t: nat, l: nat)
    requires
        e is IfElse,
    ensures
        labels_numbered(lower_spec(e, t, l).code, num_range(l as int, lower_spec(e, t, l).labels as int)),
        labels_unique(lower_spec(e, t, l).code),
    decreases e, 0nat,
{
    let o = lower_spec(e, t, l);
    lemma_lower_monotone(e, t, l);
    match e {
        Expr::IfElse { cond, then_branch, else_branch } => {
            let c = lower_spec(*cond, t, l);
            lemma_lowering_labels(*cond, t, l);
            lemma_lower_monotone(*cond, t, l);
            let then_l = label_name("then"@, c.labels);
            let else_l = label_name("else"@, c.labels + 1);
            let end_l = label_name("endif"@, c.labels + 2);
            let el = match else_branch {
                Some(es) => lower_seq(es, es.len() as int, c.temps, c.labels + 3),
                None => empty_out(c.temps, c.labels + 3),
            };
            match else_branch {
                Some(es) => {
                    lemma_seq_labels(es, es.len() as int, c.temps, c.labels + 3);
                    lemma_seq_monotone(es, es.len() as int, c.temps, c.labels + 3);
                },
                None => {
                    lemma_no_labels(el.code);
                    lemma_widen(el.code, Set::empty(), num_range(c.labels + 3int, el.labels as int));
                },
            }
            let th = lower_seq(then_branch, then_branch.len() as int, el.temps, el.labels);
            lemma_seq_labels(then_branch, then_branch.len() as int, el.temps, el.labels);
            lemma_seq_monotone(then_branch, then_branch.len() as int, el.temps, el.labels);
            let p1 = seq![InstrModel::BrIf(c.result, then_l, else_l), InstrModel::Label(else_l)];
            let p3 = seq![InstrModel::Jmp(end_l), InstrModel::Label(then_l)];
            let p5 = seq![InstrModel::Jmp(end_l), InstrModel::Label(end_l)];
            lemma_piece(p1, "else"@, c.labels + 1);
            lemma_piece(p3, "then"@, c.labels);
            lemma_piece(p5, "endif"@, c.labels + 2);
            let s0 = num_range(l as int, c.labels as int);
            let s1 = Set::<int>::empty().insert(c.labels + 1int);
            let s2 = num_range(c.labels + 3int, el.labels as int);
            let s3 = Set::<int>::empty().insert(c.labels as int);
            let s4 = num_range(el.labels as int, th.labels as int);
            let s5 = Set::<int>::empty().insert(c.labels + 2int);
            lemma_join(c.code, p1, s0, s1);
            lemma_join(c.code + p1, el.code, s0.union(s1), s2);
            lemma_join(c.code + p1 + el.code, p3, s0.union(s1).union(s2), s3);
            lemma_join(c.code + p1 + el.code + p3, th.code, s0.union(s1).union(s2).union(s3), s4);
            lemma_join(c.code + p1 + el.code + p3 + th.code, p5, s0.union(s1).union(s2).union(s3).union(s4), s5);
            lemma_widen(o.code, s0.union(s1).union(s2).union(s3).union(s4).union(s5), num_range(l as int, o.labels as int));
        },
        _ => {},
    }
}

/// The loop case of `lemma_lowering_labels`.
proof fn lemma_labels_while(e: Expr, t: nat, l: nat)
    requires
        e is While,
    ensures
        labels_numbered(lower_spec(e, t, l).code, num_range(l as int, lower_spec(e, t, l).labels as int)),
        labels_unique(lower_spec(e, t, l).code),
    decreases e, 0nat,
{
    let o = lower_spec(e, t, l);
    lemma_lower_monotone(e, t, l);
    match e {
        Expr::While { cond, body } => {
            let head = label_name("while_head"@, l);
            let body_l = label_name("while_body"@, l + 1);
            let end = label_name("while_end"@, l + 2);
            let c = lower_spec(*cond, t, l + 3);
            lemma_lowering_labels(*cond, t, l + 3);
            lemma_lower_monotone(*cond, t, l + 3);
            let b = lower_seq(body, body.len() as int, c.temps, c.labels);
            lemma_seq_labels(body, body.len() as int, c.temps, c.labels);
            lemma_seq_monotone(body, body.len() as int, c.temps, c.labels);
            let p0 = seq![InstrModel::Label(head)];
            let p2 = seq![InstrModel::BrIf(c.result, body_l, end), InstrModel::Label(body_l)];
            let p4 = seq![InstrModel::Jmp(head), InstrModel::Label(end)];
            lemma_piece(p0, "while_head"@, l);
            lemma_piece(p2, "while_body"@, l + 1);
            lemma_piece(p4, "while_end"@, l + 2);
            let s0 = Set::<int>::empty().insert(l as int);
            let s1 = num_range(l + 3int, c.labels as int);
            let s2 = Set::<int>::empty().insert(l + 1int);
            let s3 = num_range(c.labels as int, b.labels as int);
            let s4 = Set::<int>::empty().insert(l + 2int);
            lemma_join(p0, c.code, s0, s1);
            lemma_join(p0 + c.code, p2, s0.union(s1), s2);
            lemma_join(p0 + c.code + p2, b.code, s0.union(s1).union(s2), s3);
            lemma_join(p0 + c.code + p2 + b.code, p4, s0.union(s1).union(s2).union(s3), s4);
            lemma_widen(o.code, s0.union(s1).union(s2).union(s3).union(s4), num_range(l as int, o.labels as int));
        },
        _ => {},
    }
}


/// The statement-list counterpart of `lemma_lowering_labels`.
pub proof fn lemma_seq_labels(v: Vec<Expr>, n: int, t: nat, l: nat)
    requires
        0 <= n <= v.len(),
    ensures
        labels_numbered(lower_seq(v, n, t, l).code, num_range(l as int, lower_seq(v, n, t, l).labels as int)),
        labels_unique(lower_seq(v, n, t, l).code),
    decreases v, 2nat, n,
{
    let o = lower_seq(v, n, t, l);
    if n == 0 {
        lemma_no_labels(o.code);
        lemma_widen(o.code, Set::empty(), num_range(l as int, o.labels as int));
    } else {
        let p = lower_seq(v, n - 1, t, l);
        let x = lower_spec(v[n - 1], p.temps, p.labels);
        lemma_seq_labels(v, n - 1, t, l);
        lemma_seq_monotone(v, n - 1, t, l);
        lemma_lowering_labels(v[n - 1], p.temps, p.labels);
        lemma_lower_monotone(v[n - 1], p.temps, p.labels);
        let sp = num_range(l as int, p.labels as int);
        let sx = num_range(p.labels as int, x.labels as int);
        lemma_join(p.code, x.code, sp, sx);
        lemma_widen(o.code, sp.union(sx), num_range(l as int, o.labels as int));
    }
}

/// `code` has a `Label(n)` instruction.
pub open spec fn defines(code: Seq<InstrModel>, n: Seq<char>) -> bool {
    exists|j: int| 0 <= j < code.len() && code[j] == InstrModel::Label(n)
}

/// Every branch or jump target of `code` is defined in `whole`.
pub open spec fn targets_within(code: Seq<InstrModel>, whole: Seq<InstrModel>) -> bool {
    forall|i: int| 0 <= i < code.len() ==> match #[trigger] code[i] {
        InstrModel::BrIf(_, t, e) => defines(whole, t) && defines(whole, e),
        InstrModel::Jmp(l) => defines(whole, l),
        _ => true,
    }
}

/// Every branch or jump target of `code` is defined in `code`.
pub open spec fn targets_defined(code: Seq<InstrModel>) -> bool {
    targets_within(code, code)
}

proof fn lemma_defines_lift(x: Seq<InstrModel>, pre: Seq<InstrModel>, post: Seq<InstrModel>)
    ensures
        forall|n: Seq<char>| defines(x, n) ==> #[trigger] defines(pre + x + post, n),
{
    assert forall|n: Seq<char>| defines(x, n) implies #[trigger] defines(pre + x + post, n) by {
        let j = choose|j: int| 0 <= j < x.len() && x[j] == InstrModel::Label(n);
        assert((pre + x + post)[pre.len() + j] == x[j]);
    }
}

proof fn lemma_targets_lift(x: Seq<InstrModel>, pre: Seq<InstrModel>, post: Seq<InstrModel>)
    requires
        targets_within(x, x),
    ensures
        targets_within(x, pre + x + post),
{
    lemma_defines_lift(x, pre, post);
}

proof fn lemma_targets_concat(a: Seq<InstrModel>, b: Seq<InstrModel>, w: Seq<InstrModel>)
    requires
        targets_within(a, w),
        targets_within(b, w),
    ensures
        targets_within(a + b, w),
{
    assert forall|i: int| 0 <= i < (a + b).len() implies match #[trigger] (a + b)[i] {
        InstrModel::BrIf(_, t, e) => defines(w, t) && defines(w, e),
        InstrModel::Jmp(l) => defines(w, l),
        _ => true,
    } by {
        if i < a.len() {
            assert((a + b)[i] == a[i]);
        } else {
            assert((a + b)[i] == b[i - a.len()]);
        }
    }
}

proof fn lemma_glue_defines(p: Seq<InstrModel>, n: Seq<char>)
    requires
        p.len() > 0,
        p.last() == InstrModel::Label(n),
    ensures
        defines(p, n),
{
    assert(p[p.len() - 1] == InstrModel::Label(n));
}

/// Every branch or jump target of lowered code is defined in that code.
pub proof fn lemma_lowering_targets(e: Expr, t: nat, l: nat)
    ensures
        targets_defined(lower_spec(e, t, l).code),
    decreases e, 1nat,
{
    let o = lower_spec(e, t, l);
    let empty = Seq::<InstrModel>::empty();
    match e {
        Expr::Assign(_, x, _) => {
            let a = lower_spec(*x, t, l);
            lemma_lowering_targets(*x, t, l);
            let m = o.code.subrange(a.code.len() as int, o.code.len() as int);
            lemma_targets_lift(a.code, empty, m);
            assert(empty + a.code + m =~= o.code);
            assert(targets_within(m, o.code));
            lemma_targets_concat(a.code, m, o.code);
            assert(a.code + m =~= o.code);
        },
        Expr::Add(a, b) | Expr::Sub(a, b) | Expr::Mul(a, b) | Expr::Div(a, b) | Expr::Cmp(_, a, b) => {
            let x = lower_spec(*a, t, l);
            let y = lower_spec(*b, x.temps, x.labels);
            lemma_lowering_targets(*a, t, l);
            lemma_lowering_targets(*b, x.temps, x.labels);
            let m = o.code.subrange((x.code.len() + y.code.len()) as int, o.code.len() as int);
            assert(x.code + y.code + m =~= o.code);
            lemma_targets_lift(x.code, empty, y.code + m);
            assert(empty + x.code + (y.code + m) =~= o.code);
            lemma_targets_lift(y.code, x.code, m);
            assert(targets_within(m, o.code));
            lemma_targets_concat(x.code, y.code, o.code);
            lemma_targets_concat(x.code + y.code, m, o.code);
        },
        Expr::Block(v) => lemma_seq_targets(v, v.len() as int, t, l),
        Expr::IfElse { .. } => lemma_targets_if(e, t, l),
        Expr::While { .. } => lemma_targets_while(e, t, l),
        _ => {},
    }
}

/// The conditional case of `lemma_lowering_targets`.
proof fn lemma_targets_if(e: Expr, t: nat, l: nat)
    requires
        e is IfElse,
    ensures
        targets_defined(lower_spec(e, t, l).code),
    decreases e, 0nat,
{
    let o = lower_spec(e, t, l);
    let empty = Seq::<InstrModel>::empty();
    lemma_lower_monotone(e, t, l);
    match e {
        Expr::IfElse { cond, then_branch, else_branch } => {
            let c = lower_spec(*cond, t, l);
            lemma_lowering_targets(*cond, t, l);
            let then_l = label_name("then"@, c.labels);
            let else_l = label_name("else"@, c.labels + 1);
            let end_l = label_name("endif"@, c.labels + 2);
            let el = match else_branch {
                Some(es) => lower_seq(es, es.len() as int, c.temps, c.labels + 3),
                None => empty_out(c.temps, c.labels + 3),
            };
            match else_branch {
                Some(es) => lemma_seq_targets(es, es.len() as int, c.temps, c.labels + 3),
                None => {},
            }
            let th = lower_seq(then_branch, then_branch.len() as int, el.temps, el.labels);
            lemma_seq_targets(then_branch, then_branch.len() as int, el.temps, el.labels);
            let p1 = seq![InstrModel::BrIf(c.result, then_l, else_l), InstrModel::Label(else_l)];
            let p3 = seq![InstrModel::Jmp(end_l), InstrModel::Label(then_l)];
            let p5 = seq![InstrModel::Jmp(end_l), InstrModel::Label(end_l)];
            let w = o.code;
            assert(w =~= c.code + p1 + el.code + p3 + th.code + p5);
            lemma_targets_lift(c.code, empty, p1 + el.code + p3 + th.code + p5);
            assert(empty + c.code + (p1 + el.code + p3 + th.code + p5) =~= w);
            lemma_targets_lift(el.code, c.code + p1, p3 + th.code + p5);
            assert(c.code + p1 + el.code + (p3 + th.code + p5) =~= w);
            lemma_targets_lift(th.code, c.code + p1 + el.code + p3, p5);
            lemma_glue_defines(p1, else_l);
            lemma_glue_defines(p3, then_l);
            lemma_glue_defines(p5, end_l);
            lemma_defines_lift(p1, c.code, el.code + p3 + th.code + p5);
            assert(c.code + p1 + (el.code + p3 + th.code + p5) =~= w);
            lemma_defines_lift(p3, c.code + p1 + el.code, th.code + p5);
            assert(c.code + p1 + el.code + p3 + (th.code + p5) =~= w);
            lemma_defines_lift(p5, c.code + p1 + el.code + p3 + th.code, empty);
            assert(c.code + p1 + el.code + p3 + th.code + p5 + empty =~= w);
            assert(defines(w, then_l) && defines(w, else_l) && defines(w, end_l));
            assert(targets_within(p1, w));
            assert(targets_within(p3, w));
            assert(targets_within(p5, w));
            lemma_targets_concat(c.code, p1, w);
            lemma_targets_concat(c.code + p1, el.code, w);
            lemma_targets_concat(c.code + p1 + el.code, p3, w);
            lemma_targets_concat(c.code + p1 + el.code + p3, th.code, w);
            lemma_targets_concat(c.code + p1 + el.code + p3 + th.code, p5, w);
        },
        _ => {},
    }
}

/// The loop case of `lemma_lowering_targets`.
proof fn lemma_targets_while(e: Expr, t: nat, l: nat)
    requires
        e is While,
    ensures
        targets_defined(lower_spec(e, t, l).code),
    decreases e, 0nat,
{
    let o = lower_spec(e, t, l);
    let empty = Seq::<InstrModel>::empty();
    lemma_lower_monotone(e, t, l);
    match e {
        Expr::While { cond, body } => {
            let head = label_name("while_head"@, l);
            let body_l = label_name("while_body"@, l + 1);
            let end = label_name("while_end"@, l + 2);
            let c = lower_spec(*cond, t, l + 3);
            lemma_lowering_targets(*cond, t, l + 3);
            let b = lower_seq(body, body.len() as int, c.temps, c.labels);
            lemma_seq_targets(body, body.len() as int, c.temps, c.labels);
            let p0 = seq![InstrModel::Label(head)];
            let p2 = seq![InstrModel::BrIf(c.result, body_l, end), InstrModel::Label(body_l)];
            let p4 = seq![InstrModel::Jmp(head), InstrModel::Label(end)];
            let w = o.code;
            assert(w =~= p0 + c.code + p2 + b.code + p4);
            lemma_targets_lift(c.code, p0, p2 + b.code + p4);
            assert(p0 + c.code + (p2 + b.code + p4) =~= w);
            lemma_targets_lift(b.code, p0 + c.code + p2, p4);
            lemma_glue_defines(p0, head);
            lemma_glue_defines(p2, body_l);
            lemma_glue_defines(p4, end);
            lemma_defines_lift(p0, empty, c.code + p2 + b.code + p4);
            assert(empty + p0 + (c.code + p2 + b.code + p4) =~= w);
            lemma_defines_lift(p2, p0 + c.code, b.code + p4);
            assert(p0 + c.code + p2 + (b.code + p4) =~= w);
            lemma_defines_lift(p4, p0 + c.code + p2 + b.code, empty);
            assert(p0 + c.code + p2 + b.code + p4 + empty =~= w);
            assert(defines(w, head) && defines(w, body_l) && defines(w, end));
            assert(targets_within(p0, w));
            assert(targets_within(p2, w));
            assert(targets_within(p4, w));
            lemma_targets_concat(p0, c.code, w);
            lemma_targets_concat(p0 + c.code, p2, w);
            lemma_targets_concat(p0 + c.code + p2, b.code, w);
            lemma_targets_concat(p0 + c.code + p2 + b.code, p4, w);
        },
        _ => {},
    }
}


/// The statement-list counterpart of `lemma_lowering_targets`.
pub proof fn lemma_seq_targets(v: Vec<Expr>, n: int, t: nat, l: nat)
    ensures
        targets_defined(lower_seq(v, n, t, l).code),
    decreases v, 2nat, n,
{
    if n > 0 && n <= v.len() {
        let o = lower_seq(v, n, t, l);
        let p = lower_seq(v, n - 1, t, l);
        let x = lower_spec(v[n - 1], p.temps, p.labels);
        let empty = Seq::<InstrModel>::empty();
        lemma_seq_targets(v, n - 1, t, l);
        lemma_lowering_targets(v[n - 1], p.temps, p.labels);
        lemma_targets_lift(p.code, empty, x.code);
        assert(empty + p.code + x.code =~= o.code);
        lemma_targets_lift(x.code, p.code, empty);
        assert(p.code + x.code + empty =~= o.code);
        lemma_targets_concat(p.code, x.code, o.code);
    }
}

/// The static energy ignores the values of constants: programs that differ
/// only in their `LoadConst` instructions have the same energy, whatever
/// trip counts those values cause at run time.
pub proof fn lemma_energy_ignores_constants(a: Seq<InstrModel>, b: Seq<InstrModel>)
    requires
        a.len() == b.len(),
        forall|i: int| 0 <= i < a.len() ==> a[i] == b[i] || (a[i] is LoadConst && b[i] is LoadConst),
    ensures
        energy(a) == energy(b),
    decreases a.len(),
{
    if a.len() > 0 {
        lemma_energy_ignores_constants(a.drop_last(), b.drop_last());
        assert(a.last() == b.last() || (a.last() is LoadConst && b.last() is LoadConst));
    }
}

/// A label adds nothing to the static energy of a program.
pub proof fn lemma_label_energy(p: Seq<InstrModel>, n: Seq<char>)
    ensures
        energy(p.push(InstrModel::Label(n))) == energy(p),
{
    assert(p.push(InstrModel::Label(n)).drop_last() =~= p);
}

} // verus!
