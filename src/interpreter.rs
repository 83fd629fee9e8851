//! The reference interpreter: a program counter over an IR program and one
//! flat store from names to 64-bit integers.
use vstd::prelude::*;
use crate::input::{line_value, parse_int_text, trim, trim_line};
use crate::ir::{prog_view, BinOp, CmpIR, Instr, InstrModel};

verus! {

/// Why an execution stopped without a result.
#[derive(Debug, Clone, PartialEq, Eq)]
pub enum ExecError {
    /// An operand name has no value in the store.
    UndefinedVariable(String),
    DivisionByZero,
    /// An arithmetic result does not fit in 64 bits.
    Overflow,
    /// A branch or jump target has no `Label` instruction.
    UnknownLabel(String),
    /// The trimmed input line that is not a 64-bit integer.
    InputParseError(String),
    /// Nothing was written: the program executed no writing instruction.
    NoInstructions,
    NoResult,
    /// A label name that is defined more than once.
    DuplicateLabel(String),
    /// The step budget ran out before the program ended.
    StepLimit,
}

/// An execution error with its names seen as character sequences.
pub enum Fault {
    UndefinedVariable(Seq<char>),
    DivisionByZero,
    Overflow,
    UnknownLabel(Seq<char>),
    InputParseError(Seq<char>),
    NoInstructions,
    NoResult,
    DuplicateLabel(Seq<char>),
    StepLimit,
}

impl View for ExecError {
    type V = Fault;

    open spec fn view(&self) -> Fault {
        match self {
            ExecError::UndefinedVariable(n) => Fault::UndefinedVariable(n@),
            ExecError::DivisionByZero => Fault::DivisionByZero,
            ExecError::Overflow => Fault::Overflow,
            ExecError::UnknownLabel(n) => Fault::UnknownLabel(n@),
            ExecError::InputParseError(n) => Fault::InputParseError(n@),
            ExecError::NoInstructions => Fault::NoInstructions,
            ExecError::NoResult => Fault::NoResult,
            ExecError::DuplicateLabel(n) => Fault::DuplicateLabel(n@),
            ExecError::StepLimit => Fault::StepLimit,
        }
    }
}

pub open spec fn outcome_view<T>(r: Result<T, ExecError>) -> Result<T, Fault> {
    match r {
        Ok(v) => Ok(v),
        Err(e) => Err(e@),
    }
}

/// The abstract machine: store, program counter and the last name written.
pub struct Machine {
    pub vars: Map<Seq<char>, i64>,
    pub pc: int,
    pub last: Option<Seq<char>>,
}

pub open spec fn initial_machine() -> Machine {
    Machine { vars: Map::empty(), pc: 0, last: None }
}

/// Position of the first `Label(name)` at or after `i`.
pub open spec fn find_label_from(p: Seq<InstrModel>, name: Seq<char>, i: int) -> Option<int>
    decreases p.len() - i,
{
    if i < 0 || i >= p.len() {
        None
    } else if p[i] == InstrModel::Label(name) {
        Some(i)
    } else {
        find_label_from(p, name, i + 1)
    }
}

/// Position of the `Label(name)` instruction of `p`, if any.
pub open spec fn find_label(p: Seq<InstrModel>, name: Seq<char>) -> Option<int> {
    find_label_from(p, name, 0)
}

/// Instruction `j` is a label whose name an earlier label already has.
pub open spec fn redefines_label(p: Seq<InstrModel>, j: int) -> bool {
    &&& p[j] is Label
    &&& exists|i: int| 0 <= i < j && p[i] == p[j]
}

/// The name of the first label of `p`, at or after `j`, that repeats an
/// earlier one.
pub open spec fn first_duplicate_from(p: Seq<InstrModel>, j: int) -> Option<Seq<char>>
    decreases p.len() - j,
{
    if j < 0 || j >= p.len() {
        None
    } else if redefines_label(p, j) {
        Some(p[j]->Label_0)
    } else {
        first_duplicate_from(p, j + 1)
    }
}

/// Every label name of `p` is defined once.
pub open spec fn labels_unique(p: Seq<InstrModel>) -> bool {
    forall|i: int, j: int| 0 <= i < j < p.len() && p[j] is Label ==> p[i] != p[j]
}

/// The machine after writing `v` to `d` and moving to the next instruction.
pub open spec fn write(m: Machine, d: Seq<char>, v: i64) -> Machine {
    Machine { vars: m.vars.insert(d, v), pc: m.pc + 1, last: Some(d) }
}

pub open spec fn arith(op: BinOp, a: i64, b: i64) -> Result<i64, Fault> {
    let r = match op {
        BinOp::Add(_) => a.checked_add(b),
        BinOp::Sub(_) => a.checked_sub(b),
        BinOp::Mul(_) => a.checked_mul(b),
        BinOp::Div(_) => a.checked_div(b),
    };
    if op is Div && b == 0 {
        Err(Fault::DivisionByZero)
    } else {
        match r {
            Some(v) => Ok(v),
            None => Err(Fault::Overflow),
        }
    }
}

pub open spec fn compare(op: CmpIR, a: i64, b: i64) -> bool {
    match op {
        CmpIR::Eq => a == b,
        CmpIR::Ne => a != b,
        CmpIR::Lt => a < b,
        CmpIR::Le => a <= b,
        CmpIR::Gt => a > b,
        CmpIR::Ge => a >= b,
    }
}

pub open spec fn jump(p: Seq<InstrModel>, m: Machine, target: Seq<char>) -> Result<Machine, Fault> {
    match find_label(p, target) {
        Some(i) => Ok(Machine { pc: i, ..m }),
        None => Err(Fault::UnknownLabel(target)),
    }
}

/// One step of execution at `m.pc`; `line` is the input line that a `Read`
/// consumes.
pub open spec fn step_spec(p: Seq<InstrModel>, m: Machine, line: Seq<char>) -> Result<Machine, Fault> {
    match p[m.pc] {
        InstrModel::LoadConst(v, d, _) => Ok(write(m, d, v)),
        InstrModel::Move(s, d, _) => if m.vars.contains_key(s) {
            Ok(write(m, d, m.vars[s]))
        } else {
            Err(Fault::UndefinedVariable(s))
        },
        InstrModel::BinOp(op, a, b, d) => if !m.vars.contains_key(a) {
            Err(Fault::UndefinedVariable(a))
        } else if !m.vars.contains_key(b) {
            Err(Fault::UndefinedVariable(b))
        } else {
            match arith(op, m.vars[a], m.vars[b]) {
                Ok(v) => Ok(write(m, d, v)),
                Err(f) => Err(f),
            }
        },
        InstrModel::Cmp(op, a, b, d) => if !m.vars.contains_key(a) {
            Err(Fault::UndefinedVariable(a))
        } else if !m.vars.contains_key(b) {
            Err(Fault::UndefinedVariable(b))
        } else {
            Ok(write(m, d, if compare(op, m.vars[a], m.vars[b]) { 1 } else { 0 }))
        },
        InstrModel::Read(d, _) => match line_value(line) {
            Some(v) => Ok(write(m, d, v)),
            None => Err(Fault::InputParseError(trim(line))),
        },
        InstrModel::Label(_) => Ok(Machine { pc: m.pc + 1, ..m }),
        InstrModel::BrIf(c, t, e) => if m.vars.contains_key(c) {
            jump(p, m, if m.vars[c] != 0 { t } else { e })
        } else {
            Err(Fault::UndefinedVariable(c))
        },
        InstrModel::Jmp(l) => jump(p, m, l),
    }
}

/// The result of a machine whose program counter has left the program: the
/// value of the last name written.
pub open spec fn finish(m: Machine) -> Result<i64, Fault> {
    match m.last {
        None => Err(Fault::NoInstructions),
        Some(d) => if m.vars.contains_key(d) { Ok(m.vars[d]) } else { Err(Fault::NoResult) },
    }
}

/// The line that a `Read` at this point would consume: the next one, or an
/// empty line once all are used.
pub open spec fn next_line(ins: Seq<Seq<char>>) -> Seq<char> {
    if ins.len() > 0 { ins[0] } else { Seq::empty() }
}

/// Running from `m` for at most `fuel` steps, with `ins` the input lines
/// not consumed yet.
pub open spec fn run_spec(p: Seq<InstrModel>, m: Machine, ins: Seq<Seq<char>>, fuel: nat) -> Result<i64, Fault>
    decreases fuel,
{
    if m.pc < 0 || m.pc >= p.len() {
        finish(m)
    } else if fuel == 0 {
        Err(Fault::StepLimit)
    } else {
        let reads = p[m.pc] is Read;
        match step_spec(p, m, if reads { next_line(ins) } else { Seq::empty() }) {
            Err(f) => Err(f),
            Ok(m2) => run_spec(p, m2, if reads && ins.len() > 0 { ins.drop_first() } else { ins }, (fuel - 1) as nat),
        }
    }
}

/// The whole execution of `p` on the input lines `ins`, within `fuel` steps.
pub open spec fn execution(p: Seq<InstrModel>, ins: Seq<Seq<char>>, fuel: nat) -> Result<i64, Fault> {
    match first_duplicate_from(p, 0) {
        Some(n) => Err(Fault::DuplicateLabel(n)),
        None => run_spec(p, initial_machine(), ins, fuel),
    }
}

/// Input lines seen as character sequences.
pub open spec fn lines_view(ins: Seq<String>) -> Seq<Seq<char>> {
    ins.map_values(|s: String| s@)
}

/// The store as a log of writes; a later entry hides an earlier one of the
/// same name.
pub open spec fn log_map(s: Seq<(String, i64)>) -> Map<Seq<char>, i64>
    decreases s.len(),
{
    if s.len() == 0 {
        Map::empty()
    } else {
        log_map(s.drop_last()).insert(s.last().0@, s.last().1)
    }
}

proof fn lemma_log_tail(s: Seq<(String, i64)>, i: int, k: Seq<char>)
    requires
        0 <= i <= s.len(),
        forall|j: int| i <= j < s.len() ==> (#[trigger] s[j]).0@ != k,
    ensures
        log_map(s).contains_key(k) == log_map(s.take(i)).contains_key(k),
        log_map(s).contains_key(k) ==> log_map(s)[k] == log_map(s.take(i))[k],
    decreases s.len(),
{
    if i < s.len() {
        assert(s.drop_last().take(i) =~= s.take(i));
        lemma_log_tail(s.drop_last(), i, k);
    } else {
        assert(s.take(i) =~= s);
    }
}

/// No two entries of the store have the same name.
pub open spec fn keys_unique(s: Seq<(String, i64)>) -> bool {
    forall|i: int, j: int| 0 <= i < j < s.len() ==> (#[trigger] s[i]).0@ != (#[trigger] s[j]).0@
}

proof fn lemma_entry(s: Seq<(String, i64)>, i: int)
    requires
        keys_unique(s),
        0 <= i < s.len(),
    ensures
        log_map(s).contains_key(s[i].0@),
        log_map(s)[s[i].0@] == s[i].1,
    decreases s.len(),
{
    if i < s.len() - 1 {
        assert(s.drop_last()[i] == s[i]);
        assert(s[i].0@ != s[s.len() - 1].0@);
        lemma_entry(s.drop_last(), i);
    }
}

proof fn lemma_absent(s: Seq<(String, i64)>, k: Seq<char>)
    requires
        forall|j: int| 0 <= j < s.len() ==> (#[trigger] s[j]).0@ != k,
    ensures
        !log_map(s).contains_key(k),
{
    lemma_log_tail(s, 0, k);
    assert(s.take(0) =~= Seq::<(String, i64)>::empty());
}

proof fn lemma_update(s: Seq<(String, i64)>, i: int, e: (String, i64))
    requires
        keys_unique(s),
        0 <= i < s.len(),
        e.0@ == s[i].0@,
    ensures
        log_map(s.update(i, e)) == log_map(s).insert(e.0@, e.1),
        keys_unique(s.update(i, e)),
    decreases s.len(),
{
    let u = s.update(i, e);
    if i == s.len() - 1 {
        assert(u.drop_last() =~= s.drop_last());
        assert(log_map(u) =~= log_map(s).insert(e.0@, e.1));
    } else {
        assert(u.drop_last() =~= s.drop_last().update(i, e));
        assert(s.drop_last()[i] == s[i]);
        lemma_update(s.drop_last(), i, e);
        assert(s[i].0@ != s.last().0@);
        assert(log_map(u) =~= log_map(s).insert(e.0@, e.1));
    }
    assert forall|a: int, b: int| 0 <= a < b < u.len() implies (#[trigger] u[a]).0@ != (#[trigger] u[b]).0@ by {
        assert(s[a].0@ != s[b].0@);
    }
}

/// Index of the store entry named `name`, if any.
fn find_entry(vars: &Vec<(String, i64)>, name: &String) -> (r: Option<usize>)
    ensures
        r matches Some(i) ==> i < vars@.len() && vars@[i as int].0@ == name@,
        r is None ==> forall|j: int| 0 <= j < vars@.len() ==> (#[trigger] vars@[j]).0@ != name@,
{
    let mut i: usize = 0;
    while i < vars.len()
        invariant
            i <= vars.len(),
            forall|j: int| 0 <= j < i ==> (#[trigger] vars@[j]).0@ != name@,
        decreases vars.len() - i,
    {
        if vars[i].0 == *name {
            return Some(i);
        }
        i += 1;
    }
    None
}

fn lookup(vars: &Vec<(String, i64)>, name: &String) -> (r: Option<i64>)
    requires
        keys_unique(vars@),
    ensures
        r == (if log_map(vars@).contains_key(name@) { Some(log_map(vars@)[name@]) } else { None::<i64> }),
{
    match find_entry(vars, name) {
        Some(i) => {
            proof {
                lemma_entry(vars@, i as int);
            }
            Some(vars[i].1)
        },
        None => {
            proof {
                lemma_absent(vars@, name@);
            }
            None
        },
    }
}

/// `table` maps each label of `p` to its position, and `p` defines each
/// label once.
pub open spec fn label_table_of(table: Seq<(String, usize)>, p: Seq<InstrModel>) -> bool {
    &&& labels_unique(p)
    &&& forall|k: int| 0 <= k < table.len() ==> (#[trigger] table[k]).1 < p.len()
        && p[table[k].1 as int] == InstrModel::Label(table[k].0@)
    &&& forall|j: int| 0 <= j < p.len() && (#[trigger] p[j]) is Label ==> exists|k: int|
        0 <= k < table.len() && (#[trigger] table[k]).1 == j
}

proof fn lemma_find_label_at(p: Seq<InstrModel>, n: Seq<char>, m: int, i: int)
    requires
        labels_unique(p),
        0 <= m <= i < p.len(),
        p[i] == InstrModel::Label(n),
    ensures
        find_label_from(p, n, m) == Some(i),
    decreases i - m,
{
    if m < i {
        assert(p[m] != p[i]);
        lemma_find_label_at(p, n, m + 1, i);
    }
}

proof fn lemma_find_label_none(p: Seq<InstrModel>, n: Seq<char>, m: int)
    requires
        0 <= m,
        forall|j: int| m <= j < p.len() ==> (#[trigger] p[j]) != InstrModel::Label(n),
    ensures
        find_label_from(p, n, m) is None,
    decreases p.len() - m,
{
    if m < p.len() {
        lemma_find_label_none(p, n, m + 1);
    }
}

/// The table of the label positions of `p`, whose labels are each defined once.
fn build_label_table(p: &Vec<Instr>) -> (r: Vec<(String, usize)>)
    requires
        labels_unique(prog_view(p@)),
    ensures
        label_table_of(r@, prog_view(p@)),
{
    let ghost pv = prog_view(p@);
    let mut table: Vec<(String, usize)> = Vec::new();
    let mut i: usize = 0;
    while i < p.len()
        invariant
            i <= p.len(),
            pv == prog_view(p@),
            labels_unique(pv),
            forall|k: int| 0 <= k < table@.len() ==> (#[trigger] table@[k]).1 < i
                && pv[table@[k].1 as int] == InstrModel::Label(table@[k].0@),
            forall|j: int| 0 <= j < i && (#[trigger] pv[j]) is Label ==> exists|k: int|
                0 <= k < table@.len() && (#[trigger] table@[k]).1 == j,
        decreases p.len() - i,
    {
        if let Instr::Label(name) = &p[i] {
            let ghost before = table@;
            table.push((name.clone(), i));
            assert forall|j: int| 0 <= j < i + 1 && (#[trigger] pv[j]) is Label implies exists|k: int|
                0 <= k < table@.len() && (#[trigger] table@[k]).1 == j by {
                if j < i {
                    let k = choose|k: int| 0 <= k < before.len() && (#[trigger] before[k]).1 == j;
                    assert(table@[k] == before[k]);
                } else {
                    assert(table@[before.len() as int].1 == j);
                }
            }
        }
        i += 1;
    }
    table
}

/// Position in `table` of the entry for `name`, if any.
fn table_entry(table: &Vec<(String, usize)>, name: &String) -> (r: Option<usize>)
    ensures
        r matches Some(k) ==> k < table@.len() && table@[k as int].0@ == name@,
        r is None ==> forall|k: int| 0 <= k < table@.len() ==> (#[trigger] table@[k]).0@ != name@,
{
    let mut k: usize = 0;
    while k < table.len()
        invariant
            k <= table.len(),
            forall|j: int| 0 <= j < k ==> (#[trigger] table@[j]).0@ != name@,
        decreases table.len() - k,
    {
        if table[k].0 == *name {
            return Some(k);
        }
        k += 1;
    }
    None
}

/// The first label of `p` that repeats an earlier one, if any.
fn find_duplicate_label(p: &Vec<Instr>) -> (r: Option<String>)
    ensures
        name_view(r) == first_duplicate_from(prog_view(p@), 0),
{
    let ghost pv = prog_view(p@);
    let mut j: usize = 0;
    while j < p.len()
        invariant
            j <= p.len(),
            pv == prog_view(p@),
            first_duplicate_from(pv, 0) == first_duplicate_from(pv, j as int),
        decreases p.len() - j,
    {
        if let Instr::Label(name) = &p[j] {
            let mut i: usize = 0;
            while i < j
                invariant
                    i <= j < p.len(),
                    pv == prog_view(p@),
                    pv[j as int] == InstrModel::Label(name@),
                    first_duplicate_from(pv, 0) == first_duplicate_from(pv, j as int),
                    forall|k: int| 0 <= k < i ==> pv[k] != pv[j as int],
                decreases j - i,
            {
                if let Instr::Label(other) = &p[i] {
                    if *other == *name {
                        assert(pv[i as int] == pv[j as int]);
                        assert(redefines_label(pv, j as int));
                        return Some(name.clone());
                    }
                }
                i += 1;
            }
        }
        assert(!redefines_label(pv, j as int));
        j += 1;
    }
    None
}

/// No label from `j` on repeats an earlier one exactly when there is no
/// first such label.
proof fn lemma_no_duplicate_from(p: Seq<InstrModel>, j: int)
    requires
        0 <= j,
    ensures
        (first_duplicate_from(p, j) is None) == (forall|k: int| j <= k < p.len() ==> !redefines_label(p, k)),
    decreases p.len() - j,
{
    if j < p.len() {
        lemma_no_duplicate_from(p, j + 1);
        if !redefines_label(p, j) {
            assert forall|k: int| j <= k < p.len() && (forall|k2: int| j + 1 <= k2 < p.len() ==> !redefines_label(p, k2))
                implies !redefines_label(p, k) by {
                if k > j {
                    assert(j + 1 <= k);
                }
            }
        }
    }
}

/// A program passes the label check of `start` exactly when each of its
/// label names is defined once.
pub proof fn lemma_duplicate_check(p: Seq<InstrModel>)
    ensures
        (first_duplicate_from(p, 0) is None) == labels_unique(p),
{
    lemma_no_duplicate_from(p, 0);
    if labels_unique(p) {
        assert forall|k: int| 0 <= k < p.len() implies !redefines_label(p, k) by {
            if redefines_label(p, k) {
                let i = choose|i: int| 0 <= i < k && p[i] == p[k];
                assert(p[i] != p[k]);
            }
        }
    } else {
        let (i, j) = choose|i: int, j: int| 0 <= i < j < p.len() && p[j] is Label && !(p[i] != p[j]);
        assert(redefines_label(p, j));
    }
}

/// The name that an optional `String` holds, seen as a character sequence.
pub open spec fn name_view(r: Option<String>) -> Option<Seq<char>> {
    match r {
        Some(s) => Some(s@),
        None => None,
    }
}

/// Executes IR programs; each execution starts from an empty store.
pub struct Interpreter {
    vars: Vec<(String, i64)>,
    labels: Vec<(String, usize)>,
    pc: usize,
    last: Option<String>,
}

impl Interpreter {
    /// The store holds one entry per name.
    pub closed spec fn inv(&self) -> bool {
        keys_unique(self.vars@)
    }

    /// The label table was built, by `start`, for the program `p`.
    pub closed spec fn prepared_for(&self, p: Seq<InstrModel>) -> bool {
        label_table_of(self.labels@, p)
    }

    /// The abstract state of the interpreter.
    pub closed spec fn machine(&self) -> Machine {
        Machine { vars: log_map(self.vars@), pc: self.pc as int, last: name_view(self.last) }
    }

    /// An interpreter with an empty store at the first instruction.
    pub fn new() -> (r: Self)
        ensures
            r.inv(),
            r.machine() == initial_machine(),
    {
        let r = Interpreter { vars: Vec::new(), labels: Vec::new(), pc: 0, last: None };
        assert(r.machine().vars =~= Map::empty());
        r
    }

    /// Clears the store and checks that each label of `instrs` is defined once.
    pub fn start(&mut self, instrs: &Vec<Instr>) -> (r: Result<(), ExecError>)
        ensures
            final(self).inv(),
            final(self).machine() == initial_machine(),
            match first_duplicate_from(prog_view(instrs@), 0) {
                Some(n) => outcome_view(r) == Err::<(), Fault>(Fault::DuplicateLabel(n)),
                None => r is Ok,
            },
            r is Ok <==> labels_unique(prog_view(instrs@)),
            r is Ok ==> final(self).prepared_for(prog_view(instrs@)),
    {
        proof {
            lemma_duplicate_check(prog_view(instrs@));
        }
        self.vars = Vec::new();
        self.labels = Vec::new();
        self.pc = 0;
        self.last = None;
        assert(self.machine().vars =~= Map::empty());
        match find_duplicate_label(instrs) {
            Some(n) => Err(ExecError::DuplicateLabel(n)),
            None => {
                self.labels = build_label_table(instrs);
                Ok(())
            },
        }
    }

    /// Whether the program counter is still inside `instrs`.
    pub fn is_running(&self, instrs: &Vec<Instr>) -> (r: bool)
        ensures
            r == (0 <= self.machine().pc < instrs@.len()),
    {
        self.pc < instrs.len()
    }

    /// The name that the next instruction reads from the input, if it is a `Read`.
    pub fn pending_read(&self, instrs: &Vec<Instr>) -> (r: Option<String>)
        ensures
            (0 <= self.machine().pc < instrs@.len() && prog_view(instrs@)[self.machine().pc] is Read)
                == (r is Some),
            r matches Some(n) ==> prog_view(instrs@)[self.machine().pc]->Read_0 == n@,
    {
        if self.pc < instrs.len() {
            match &instrs[self.pc] {
                Instr::Read(name, _) => Some(name.clone()),
                _ => None,
            }
        } else {
            None
        }
    }

    fn write(&mut self, d: String, v: i64)
        requires
            old(self).pc < usize::MAX,
            old(self).inv(),
        ensures
            final(self).machine() == write(old(self).machine(), d@, v),
            final(self).inv(),
            final(self).labels == old(self).labels,
    {
        let ghost before = self.vars@;
        match find_entry(&self.vars, &d) {
            Some(i) => {
                proof {
                    lemma_update(before, i as int, (d, v));
                }
                self.vars.set(i, (d.clone(), v));
            },
            None => {
                self.vars.push((d.clone(), v));
                assert(self.vars@.drop_last() =~= before);
                assert forall|a: int, b: int| 0 <= a < b < self.vars@.len() implies
                    (#[trigger] self.vars@[a]).0@ != (#[trigger] self.vars@[b]).0@ by {
                    if b < before.len() {
                        assert(before[a].0@ != before[b].0@);
                    } else {
                        assert(before[a].0@ != d@);
                    }
                }
            },
        }
        self.last = Some(d);
        self.pc = self.pc + 1;
    }

    fn jump_to(&mut self, instrs: &Vec<Instr>, target: &String) -> (r: Result<(), ExecError>)
        requires
            old(self).prepared_for(prog_view(instrs@)),
        ensures
            final(self).vars == old(self).vars,
            final(self).labels == old(self).labels,
            match jump(prog_view(instrs@), old(self).machine(), target@) {
                Ok(m) => r is Ok && final(self).machine() == m,
                Err(f) => r is Err && outcome_view(r) == Err::<(), Fault>(f),
            },
    {
        let ghost pv = prog_view(instrs@);
        match table_entry(&self.labels, target) {
            Some(k) => {
                let i = self.labels[k].1;
                proof {
                    lemma_find_label_at(pv, target@, 0, i as int);
                }
                self.pc = i;
                Ok(())
            },
            None => {
                proof {
                    assert forall|j: int| 0 <= j < pv.len() implies (#[trigger] pv[j]) != InstrModel::Label(target@) by {
                        if pv[j] == InstrModel::Label(target@) {
                            let k = choose|k: int| 0 <= k < self.labels@.len() && (#[trigger] self.labels@[k]).1 == j;
                            assert(self.labels@[k].0@ != target@);
                        }
                    }
                    lemma_find_label_none(pv, target@, 0);
                }
                Err(ExecError::UnknownLabel(target.clone()))
            },
        }
    }

    /// Executes the instruction at the program counter. A `Read` takes its
    /// value from `line`; other instructions ignore it.
    pub fn step(&mut self, instrs: &Vec<Instr>, line: &str) -> (r: Result<(), ExecError>)
        requires
            old(self).inv(),
            old(self).prepared_for(prog_view(instrs@)),
            0 <= old(self).machine().pc < instrs@.len(),
        ensures
            match step_spec(prog_view(instrs@), old(self).machine(), line@) {
                Ok(m) => r is Ok && final(self).machine() == m,
                Err(f) => r is Err && outcome_view(r) == Err::<(), Fault>(f),
            },
            final(self).inv(),
            final(self).prepared_for(prog_view(instrs@)),
    {
        let n = instrs.len();
        assert(self.pc < n);
        match &instrs[self.pc] {
            Instr::LoadConst(v, d, _) => {
                self.write(d.clone(), *v);
                Ok(())
            },
            Instr::Move(s, d, _) => match lookup(&self.vars, s) {
                Some(v) => {
                    self.write(d.clone(), v);
                    Ok(())
                },
                None => Err(ExecError::UndefinedVariable(s.clone())),
            },
            Instr::BinOp(op, a, b, d) => {
                let lv = match lookup(&self.vars, a) {
                    Some(v) => v,
                    None => {
                        return Err(ExecError::UndefinedVariable(a.clone()));
                    },
                };
                let rv = match lookup(&self.vars, b) {
                    Some(v) => v,
                    None => {
                        return Err(ExecError::UndefinedVariable(b.clone()));
                    },
                };
                let res = match op {
                    BinOp::Add(_) => lv.checked_add(rv),
                    BinOp::Sub(_) => lv.checked_sub(rv),
                    BinOp::Mul(_) => lv.checked_mul(rv),
                    BinOp::Div(_) => {
                        if rv == 0 {
                            return Err(ExecError::DivisionByZero);
                        }
                        lv.checked_div(rv)
                    },
                };
                match res {
                    Some(v) => {
                        self.write(d.clone(), v);
                        Ok(())
                    },
                    None => Err(ExecError::Overflow),
                }
            },
            Instr::Cmp(op, a, b, d) => {
                let lv = match lookup(&self.vars, a) {
                    Some(v) => v,
                    None => {
                        return Err(ExecError::UndefinedVariable(a.clone()));
                    },
                };
                let rv = match lookup(&self.vars, b) {
                    Some(v) => v,
                    None => {
                        return Err(ExecError::UndefinedVariable(b.clone()));
                    },
                };
                let holds = match op {
                    CmpIR::Eq => lv == rv,
                    CmpIR::Ne => lv != rv,
                    CmpIR::Lt => lv < rv,
                    CmpIR::Le => lv <= rv,
                    CmpIR::Gt => lv > rv,
                    CmpIR::Ge => lv >= rv,
                };
                self.write(d.clone(), if holds { 1 } else { 0 });
                Ok(())
            },
            Instr::Read(d, _) => {
                let t = trim_line(line);
                match parse_int_text(t.as_str()) {
                    Some(v) => {
                        self.write(d.clone(), v);
                        Ok(())
                    },
                    None => Err(ExecError::InputParseError(t)),
                }
            },
            Instr::Label(_) => {
                self.pc = self.pc + 1;
                Ok(())
            },
            Instr::BrIf(c, t, e) => match lookup(&self.vars, c) {
                Some(v) => {
                    if v != 0 {
                        self.jump_to(instrs, t)
                    } else {
                        self.jump_to(instrs, e)
                    }
                },
                None => Err(ExecError::UndefinedVariable(c.clone())),
            },
            Instr::Jmp(l) => self.jump_to(instrs, l),
        }
    }

    /// The value of the last name written, once the program has ended.
    pub fn result(&self) -> (r: Result<i64, ExecError>)
        requires
            self.inv(),
        ensures
            outcome_view(r) == finish(self.machine()),
    {
        match &self.last {
            None => Err(ExecError::NoInstructions),
            Some(d) => match lookup(&self.vars, d) {
                Some(v) => Ok(v),
                None => Err(ExecError::NoResult),
            },
        }
    }

    /// Runs `instrs` from an empty store for at most `fuel` steps. Each `Read`
    /// consumes the next line of `inputs`, or an empty line once they are used up.
    pub fn execute(&mut self, instrs: &Vec<Instr>, inputs: &Vec<String>, fuel: u64) -> (r: Result<i64, ExecError>)
        ensures
            outcome_view(r) == execution(prog_view(instrs@), lines_view(inputs@), fuel as nat),
    {
        let ghost pv = prog_view(instrs@);
        let ghost ins = lines_view(inputs@);
        match self.start(instrs) {
            Err(e) => {
                return Err(e);
            },
            Ok(()) => {},
        }
        let empty = String::new();
        let mut k: usize = 0;
        let mut left: u64 = fuel;
        assert(ins.skip(0) =~= ins);
        while self.pc < instrs.len()
            invariant
                k <= inputs.len(),
                pv == prog_view(instrs@),
                ins == lines_view(inputs@),
                empty@ == Seq::<char>::empty(),
                self.inv(),
                self.prepared_for(pv),
                first_duplicate_from(pv, 0) is None,
                run_spec(pv, self.machine(), ins.skip(k as int), left as nat)
                    == run_spec(pv, initial_machine(), ins, fuel as nat),
            decreases left,
        {
            if left == 0 {
                return Err(ExecError::StepLimit);
            }
            let reads = match &instrs[self.pc] {
                Instr::Read(..) => true,
                _ => false,
            };
            let line: &str = if reads && k < inputs.len() { inputs[k].as_str() } else { empty.as_str() };
            proof {
                if reads && k < inputs.len() {
                    assert(ins.skip(k as int).drop_first() =~= ins.skip(k + 1));
                }
            }
            match self.step(instrs, line) {
                Err(e) => {
                    return Err(e);
                },
                Ok(()) => {},
            }
            if reads && k < inputs.len() {
                k += 1;
            }
            left -= 1;
        }
        self.result()
    }
}

/// A division whose right operand holds 0 stops execution with
/// `DivisionByZero`: no value is written and nothing else happens.
pub proof fn lemma_division_by_zero(p: Seq<InstrModel>, m: Machine, line: Seq<char>, ty: crate::ast::Type, a: Seq<char>, b: Seq<char>, d: Seq<char>)
    requires
        0 <= m.pc < p.len(),
        p[m.pc] == InstrModel::BinOp(BinOp::Div(ty), a, b, d),
        m.vars.contains_key(a),
        m.vars.contains_key(b),
        m.vars[b] == 0,
    ensures
        step_spec(p, m, line) == Err::<Machine, Fault>(Fault::DivisionByZero),
{
}

/// The name that an instruction writes, if it writes one.
pub open spec fn written_name(i: InstrModel) -> Option<Seq<char>> {
    match i {
        InstrModel::LoadConst(_, d, _) | InstrModel::Move(_, d, _) => Some(d),
        InstrModel::BinOp(_, _, _, d) | InstrModel::Cmp(_, _, _, d) => Some(d),
        InstrModel::Read(d, _) => Some(d),
        _ => None,
    }
}

/// Last write wins: after a step that writes `d`, the result that the
/// machine would give is the value just stored at `d`; a step that writes
/// nothing leaves the store and the last name written unchanged.
pub proof fn lemma_last_write_wins(p: Seq<InstrModel>, m: Machine, line: Seq<char>)
    requires
        0 <= m.pc < p.len(),
        step_spec(p, m, line) is Ok,
    ensures
        ({
            let m2 = step_spec(p, m, line)->Ok_0;
            match written_name(p[m.pc]) {
                Some(d) => m2.last == Some(d) && m2.vars.contains_key(d) && finish(m2) == Ok::<i64, Fault>(m2.vars[d]),
                None => m2.last == m.last && m2.vars == m.vars,
            }
        }),
{
}

} // verus!
