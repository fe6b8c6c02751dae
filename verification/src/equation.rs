//! The expression compiler: equation text to an immutable postfix `Equation`.

use vstd::prelude::*;

verus! {

use vstd::pervasive::VecAdditionalExecFns;
use vstd::string::StrSliceExecFns;

/// The five operators an equation may use.  `=` has the lowest precedence so
/// that it is evaluated last and turns the two reduced sides into a
/// match / no-match answer.
#[derive(Clone, Copy, PartialEq, Eq, Structural, Debug)]
pub enum Op {
    Add,
    Sub,
    Mul,
    Div,
    Equals,
}

/// One postfix token: an operator, or an operand word given as the indices of
/// its letters in the equation's variable list (most significant first).
#[derive(Debug)]
pub enum Token {
    Operator(Op),
    Word(Vec<usize>),
}

/// Mathematical shape of a token: the word is a sequence of variable indices.
pub enum SpecTok {
    Operator(Op),
    Word(Seq<usize>),
}

impl View for Token {
    type V = SpecTok;

    open spec fn view(&self) -> SpecTok {
        match self {
            Token::Operator(op) => SpecTok::Operator(*op),
            Token::Word(w) => SpecTok::Word(w@),
        }
    }
}

/// Why a piece of equation text was rejected.
#[derive(Clone, Copy, PartialEq, Eq, Structural, Debug)]
pub enum ParseError {
    /// A `)` appeared with no `(` open.
    UnmatchedClose,
    /// A `(` was never closed.
    UnmatchedOpen,
    /// More than 10 distinct letters: no injective digit mapping can exist.
    TooManyVariables,
    /// No token at all came out of the text.
    EmptyInput,
}

/// Uppercase letters are the variables; every other character that is not an
/// operator or a parenthesis is ignored.
pub open spec fn is_letter(c: char) -> bool {
    65 <= c as u32 <= 90
}

pub open spec fn is_op_char(c: char) -> bool {
    c == '+' || c == '-' || c == '*' || c == '/' || c == '='
}

/// Operator precedence: `*` and `/` bind tightest, then `+` and `-`,
/// and `=` last.
pub open spec fn prec(c: char) -> int {
    if c == '*' || c == '/' {
        3
    } else if c == '+' || c == '-' {
        2
    } else {
        1
    }
}

pub open spec fn op_of(c: char) -> Op {
    if c == '+' {
        Op::Add
    } else if c == '-' {
        Op::Sub
    } else if c == '*' {
        Op::Mul
    } else if c == '/' {
        Op::Div
    } else {
        Op::Equals
    }
}

/// State of the shunting-yard transform after some prefix of the input.
pub struct ParseState {
    /// Postfix tokens emitted so far.
    pub out: Seq<SpecTok>,
    /// Pending operator stack; holds operator characters and `'('`.
    pub ops: Seq<char>,
    /// Letters of the operand word currently being accumulated, as indices
    /// into `vars`.
    pub word: Seq<usize>,
    /// Variables in order of first occurrence.
    pub vars: Seq<char>,
    /// Indices of variables seen at the head of an operand word.
    pub lead: Set<usize>,
    /// First error hit, if any; once set the rest of the input is ignored.
    pub err: Option<ParseError>,
}

pub open spec fn init_state() -> ParseState {
    ParseState {
        out: Seq::empty(),
        ops: Seq::empty(),
        word: Seq::empty(),
        vars: Seq::empty(),
        lead: Set::empty(),
        err: None,
    }
}

/// Index of the first occurrence of `c` in `vars`, or `vars.len()` if absent.
pub open spec fn find_var(vars: Seq<char>, c: char) -> int
    decreases vars.len(),
{
    if vars.len() == 0 {
        0
    } else if vars[0] == c {
        0
    } else {
        1 + find_var(vars.drop_first(), c)
    }
}

pub proof fn lemma_find_var(vars: Seq<char>, c: char)
    ensures
        0 <= find_var(vars, c) <= vars.len(),
        find_var(vars, c) < vars.len() ==> vars[find_var(vars, c)] == c,
        forall|j: int| 0 <= j < find_var(vars, c) ==> vars[j] != c,
        find_var(vars, c) == vars.len() ==> !vars.contains(c),
    decreases vars.len(),
{
    if vars.len() > 0 && vars[0] != c {
        lemma_find_var(vars.drop_first(), c);
        assert forall|j: int| 0 <= j < find_var(vars, c) implies vars[j] != c by {
            if j > 0 {
                assert(vars.drop_first()[j - 1] == vars[j]);
            }
        }
        if find_var(vars, c) == vars.len() && vars.contains(c) {
            let w = choose|w: int| 0 <= w < vars.len() && vars[w] == c;
            assert(vars[w] != c);
        }
    } else if vars.len() == 0 && vars.contains(c) {
        let w = choose|w: int| 0 <= w < vars.len() && vars[w] == c;
    }
}

/// Close the operand word in flight, if any: emit it and mark its first
/// letter as leading.
pub open spec fn flush_word(s: ParseState) -> ParseState {
    if s.word.len() == 0 {
        s
    } else {
        ParseState {
            out: s.out.push(SpecTok::Word(s.word)),
            word: Seq::empty(),
            lead: s.lead.insert(s.word[0]),
            ..s
        }
    }
}

/// Pop operators of strictly higher precedence than `p` onto the output.
pub open spec fn pop_higher(ops: Seq<char>, out: Seq<SpecTok>, p: int) -> (Seq<char>, Seq<
    SpecTok,
>)
    decreases ops.len(),
{
    if ops.len() > 0 && is_op_char(ops.last()) && prec(ops.last()) > p {
        pop_higher(ops.drop_last(), out.push(SpecTok::Operator(op_of(ops.last()))), p)
    } else {
        (ops, out)
    }
}

/// Pop operators until the matching `(`; `None` when no `(` is open.
pub open spec fn pop_to_paren(ops: Seq<char>, out: Seq<SpecTok>) -> Option<(Seq<char>, Seq<
    SpecTok,
>)>
    decreases ops.len(),
{
    if ops.len() == 0 {
        None
    } else if ops.last() == '(' {
        Some((ops.drop_last(), out))
    } else {
        pop_to_paren(ops.drop_last(), out.push(SpecTok::Operator(op_of(ops.last()))))
    }
}

/// Drain the stack at the end of the input; `None` when a `(` is left over.
pub open spec fn drain_ops(ops: Seq<char>, out: Seq<SpecTok>) -> Option<Seq<SpecTok>>
    decreases ops.len(),
{
    if ops.len() == 0 {
        Some(out)
    } else if ops.last() == '(' {
        None
    } else {
        drain_ops(ops.drop_last(), out.push(SpecTok::Operator(op_of(ops.last()))))
    }
}

/// One shunting-yard step for the character `c`.
pub open spec fn step(s: ParseState, c: char) -> ParseState {
    if s.err is Some {
        s
    } else if is_letter(c) {
        let i = find_var(s.vars, c);
        if i < s.vars.len() {
            ParseState { word: s.word.push(i as usize), ..s }
        } else {
            ParseState {
                vars: s.vars.push(c),
                word: s.word.push(s.vars.len() as usize),
                ..s
            }
        }
    } else {
        let f = flush_word(s);
        if is_op_char(c) {
            let r = pop_higher(f.ops, f.out, prec(c));
            ParseState { ops: r.0.push(c), out: r.1, ..f }
        } else if c == '(' {
            ParseState { ops: f.ops.push(c), ..f }
        } else if c == ')' {
            match pop_to_paren(f.ops, f.out) {
                Some(r) => ParseState { ops: r.0, out: r.1, ..f },
                None => ParseState { err: Some(ParseError::UnmatchedClose), ..f },
            }
        } else {
            f
        }
    }
}

/// State after the first `i` characters of the input.
pub open spec fn run_to(chars: Seq<char>, i: int) -> ParseState
    decreases i,
{
    if i <= 0 {
        init_state()
    } else {
        step(run_to(chars, i - 1), chars[i - 1])
    }
}

/// Indices below `n` that the set `lead` marks as leading, in ascending order.
pub open spec fn lead_indices(n: nat, lead: Set<usize>) -> Seq<usize>
    decreases n,
{
    if n == 0 {
        Seq::empty()
    } else {
        let pre = lead_indices((n - 1) as nat, lead);
        if lead.contains((n - 1) as usize) {
            pre.push((n - 1) as usize)
        } else {
            pre
        }
    }
}

pub proof fn lemma_lead_indices_bound(n: nat, lead: Set<usize>)
    requires
        n <= usize::MAX,
    ensures
        forall|j: int|
            0 <= j < lead_indices(n, lead).len() ==> #[trigger] lead_indices(n, lead)[j] < n,
    decreases n,
{
    if n > 0 {
        lemma_lead_indices_bound((n - 1) as nat, lead);
        let pre = lead_indices((n - 1) as nat, lead);
        assert forall|j: int| 0 <= j < lead_indices(n, lead).len() implies lead_indices(n, lead)[j]
            < n by {
            if j < pre.len() {
                assert(lead_indices(n, lead)[j] == pre[j]);
                assert(pre[j] < n - 1);
            }
        }
    }
}

/// Mathematical shape of a compiled equation.
pub struct EqModel {
    pub postfix: Seq<SpecTok>,
    pub vars: Seq<char>,
    pub firsts: Seq<usize>,
}

/// The whole compiler: what `Equation::new` returns for a given input.
pub open spec fn compile_spec(chars: Seq<char>) -> Result<EqModel, ParseError> {
    let s = flush_word(run_to(chars, chars.len() as int));
    if s.err is Some {
        Err(s.err->Some_0)
    } else {
        match drain_ops(s.ops, s.out) {
            None => Err(ParseError::UnmatchedOpen),
            Some(out) => if s.vars.len() > 10 {
                Err(ParseError::TooManyVariables)
            } else if out.len() == 0 {
                Err(ParseError::EmptyInput)
            } else {
                Ok(
                    EqModel {
                        postfix: out,
                        vars: s.vars,
                        firsts: lead_indices(s.vars.len(), s.lead),
                    },
                )
            },
        }
    }
}

/// View of a token vector as a sequence of mathematical tokens.
pub open spec fn toks_model(ts: Seq<Token>) -> Seq<SpecTok> {
    ts.map_values(|t: Token| t@)
}

/// Operator-stack entries are operator characters or `'('`.
pub open spec fn ops_ok(ops: Seq<char>) -> bool {
    forall|j: int| 0 <= j < ops.len() ==> is_op_char(#[trigger] ops[j]) || ops[j] == '('
}

pub open spec fn out_ok(out: Seq<SpecTok>, nvars: nat) -> bool {
    forall|j: int| 0 <= j < out.len() ==> wf_tok(#[trigger] out[j], nvars)
}

/// Invariant of the shunting-yard state.
pub open spec fn inv_state(s: ParseState) -> bool {
    &&& forall|j: int| 0 <= j < s.word.len() ==> #[trigger] s.word[j] < s.vars.len()
    &&& out_ok(s.out, s.vars.len())
    &&& ops_ok(s.ops)
    &&& forall|i: usize| s.lead.contains(i) ==> i < s.vars.len()
    &&& s.vars.no_duplicates()
}

pub proof fn lemma_pop_higher_ok(ops: Seq<char>, out: Seq<SpecTok>, p: int, nvars: nat)
    requires
        ops_ok(ops),
        out_ok(out, nvars),
    ensures
        ops_ok(pop_higher(ops, out, p).0),
        out_ok(pop_higher(ops, out, p).1, nvars),
    decreases ops.len(),
{
    if ops.len() > 0 && is_op_char(ops.last()) && prec(ops.last()) > p {
        assert(ops_ok(ops.drop_last()));
        assert(out_ok(out.push(SpecTok::Operator(op_of(ops.last()))), nvars));
        lemma_pop_higher_ok(ops.drop_last(), out.push(SpecTok::Operator(op_of(ops.last()))), p, nvars);
    }
}

pub proof fn lemma_pop_to_paren_ok(ops: Seq<char>, out: Seq<SpecTok>, nvars: nat)
    requires
        ops_ok(ops),
        out_ok(out, nvars),
        pop_to_paren(ops, out) is Some,
    ensures
        ops_ok(pop_to_paren(ops, out)->Some_0.0),
        out_ok(pop_to_paren(ops, out)->Some_0.1, nvars),
    decreases ops.len(),
{
    if ops.len() == 0 {
    } else if ops.last() == '(' {
        assert(ops_ok(ops.drop_last()));
    } else {
        assert(ops_ok(ops.drop_last()));
        assert(out_ok(out.push(SpecTok::Operator(op_of(ops.last()))), nvars));
        lemma_pop_to_paren_ok(ops.drop_last(), out.push(SpecTok::Operator(op_of(ops.last()))), nvars);
    }
}

pub proof fn lemma_drain_ops_ok(ops: Seq<char>, out: Seq<SpecTok>, nvars: nat)
    requires
        ops_ok(ops),
        out_ok(out, nvars),
        drain_ops(ops, out) is Some,
    ensures
        out_ok(drain_ops(ops, out)->Some_0, nvars),
    decreases ops.len(),
{
    if ops.len() == 0 {
    } else if ops.last() == '(' {
    } else {
        assert(ops_ok(ops.drop_last()));
        assert(out_ok(out.push(SpecTok::Operator(op_of(ops.last()))), nvars));
        lemma_drain_ops_ok(ops.drop_last(), out.push(SpecTok::Operator(op_of(ops.last()))), nvars);
    }
}

/// A token well formed for `n` variables stays well formed when more
/// variables are appended.
pub proof fn lemma_out_ok_grow(out: Seq<SpecTok>, n: nat, m: nat)
    requires
        out_ok(out, n),
        n <= m,
    ensures
        out_ok(out, m),
{
    assert forall|j: int| 0 <= j < out.len() implies wf_tok(#[trigger] out[j], m) by {
        assert(wf_tok(out[j], n));
    }
}

/// Every state the transform reaches satisfies the invariant, and the
/// variable list cannot outgrow the number of characters read.
pub proof fn lemma_run_inv(chars: Seq<char>, i: int)
    requires
        0 <= i <= usize::MAX,
    ensures
        inv_state(run_to(chars, i)),
        run_to(chars, i).vars.len() <= i,
    decreases i,
{
    if i > 0 {
        lemma_run_inv(chars, i - 1);
        let s = run_to(chars, i - 1);
        let c = chars[i - 1];
        let n = s.vars.len();
        if s.err is Some {
        } else if is_letter(c) {
            let fv = find_var(s.vars, c);
            lemma_find_var(s.vars, c);
            if fv < n {
            } else {
                assert(!s.vars.contains(c));
                assert(s.vars.push(c).no_duplicates());
                lemma_out_ok_grow(s.out, n, n + 1);
            }
        } else {
            let f = flush_word(s);
            assert(inv_state(f));
            if is_op_char(c) {
                lemma_pop_higher_ok(f.ops, f.out, prec(c), n);
            } else if c == '(' {
            } else if c == ')' {
                if pop_to_paren(f.ops, f.out) is Some {
                    lemma_pop_to_paren_ok(f.ops, f.out, n);
                }
            }
        }
    }
}

/// Once an error is recorded, the rest of the input changes nothing.
pub proof fn lemma_err_sticky(chars: Seq<char>, i: int, j: int)
    requires
        0 <= i <= j,
        run_to(chars, i).err is Some,
    ensures
        run_to(chars, j) == run_to(chars, i),
    decreases j - i,
{
    if j > i {
        lemma_err_sticky(chars, i, j - 1);
    }
}

/// A token is well formed when its word is nonempty and every letter index
/// points into the variable list.
pub open spec fn wf_tok(t: SpecTok, nvars: nat) -> bool {
    match t {
        SpecTok::Operator(_) => true,
        SpecTok::Word(w) => w.len() > 0 && forall|j: int| 0 <= j < w.len() ==> w[j] < nvars,
    }
}

/// A compiled equation, immutable once built and shared read-only by every
/// search chunk.
#[derive(Debug)]
pub struct Equation {
    /// Postfix token sequence.
    pub postfix: Vec<Token>,
    /// Distinct variables, in order of first occurrence in the input.
    pub vars: Vec<char>,
    /// Indices into `vars` of the variables that start an operand word and
    /// therefore may never be assigned the digit 0.
    pub first_vars_index: Vec<usize>,
}

fn is_letter_exec(c: char) -> (b: bool)
    ensures
        b == is_letter(c),
{
    let u = c as u32;
    65 <= u && u <= 90
}

fn is_op_exec(c: char) -> (b: bool)
    ensures
        b == is_op_char(c),
{
    c == '+' || c == '-' || c == '*' || c == '/' || c == '='
}

fn prec_exec(c: char) -> (r: u8)
    ensures
        r as int == prec(c),
{
    if c == '*' || c == '/' {
        3
    } else if c == '+' || c == '-' {
        2
    } else {
        1
    }
}

fn op_of_exec(c: char) -> (r: Op)
    ensures
        r == op_of(c),
{
    if c == '+' {
        Op::Add
    } else if c == '-' {
        Op::Sub
    } else if c == '*' {
        Op::Mul
    } else if c == '/' {
        Op::Div
    } else {
        Op::Equals
    }
}

/// First index of `c` in `vars`, or `vars.len()` when `c` is absent.
fn find_var_exec(vars: &Vec<char>, c: char) -> (r: usize)
    ensures
        r as int == find_var(vars@, c),
{
    proof {
        lemma_find_var(vars@, c);
    }
    let ghost fv = find_var(vars@, c);
    let n = vars.len();
    let mut i: usize = 0;
    while i < n
        invariant
            0 <= i <= n,
            n == vars@.len(),
            fv == find_var(vars@, c),
            0 <= fv <= n,
            fv < n ==> vars@[fv] == c,
            forall|j: int| 0 <= j < fv ==> vars@[j] != c,
            forall|j: int| 0 <= j < i ==> vars@[j] != c,
        decreases n - i,
    {
        if vars[i] == c {
            return i;
        }
        i += 1;
    }
    n
}

impl Equation {
    pub open spec fn postfix_model(&self) -> Seq<SpecTok> {
        self.postfix@.map_values(|t: Token| t@)
    }

    /// Structural invariant established by the compiler.
    pub open spec fn wf(&self) -> bool {
        &&& self.vars@.len() <= 10
        &&& self.vars@.no_duplicates()
        &&& forall|i: int|
            0 <= i < self.postfix@.len() ==> wf_tok(#[trigger] self.postfix@[i]@, self.vars@.len())
        &&& forall|i: int|
            0 <= i < self.first_vars_index@.len() ==> #[trigger] self.first_vars_index@[i]
                < self.vars@.len()
    }

    /// Compile equation text into postfix form with the shunting-yard
    /// transform.  Uppercase letters accumulate into operand words; any
    /// character that is not a letter, an operator or a parenthesis is
    /// ignored.  The variable list is ordered by first occurrence in the
    /// input, so compilation is deterministic.
    pub fn new(infix: String) -> (r: Result<Equation, ParseError>)
        ensures
            (match compile_spec(infix@) {
                Ok(m) => {
                    &&& r matches Ok(eq)
                    &&& eq.postfix_model() == m.postfix
                    &&& eq.vars@ == m.vars
                    &&& eq.first_vars_index@ == m.firsts
                    &&& eq.wf()
                },
                Err(e) => r == Err::<Equation, ParseError>(e),
            }),
    {
        let istr = infix.as_str();
        let n = istr.unicode_len();
        let mut out: Vec<Token> = Vec::new();
        let mut ops: Vec<char> = Vec::new();
        let mut word: Vec<usize> = Vec::new();
        let mut vars: Vec<char> = Vec::new();
        let mut is_first: Vec<bool> = Vec::new();
        let mut i: usize = 0;
        while i < n
            invariant
                0 <= i <= n,
                n == infix@.len(),
                istr@ == infix@,
                run_to(infix@, i as int).err is None,
                toks_model(out@) == run_to(infix@, i as int).out,
                ops@ == run_to(infix@, i as int).ops,
                word@ == run_to(infix@, i as int).word,
                vars@ == run_to(infix@, i as int).vars,
                is_first@.len() == vars@.len(),
                forall|j: int|
                    0 <= j < is_first@.len() ==> is_first@[j] == run_to(
                        infix@,
                        i as int,
                    ).lead.contains(j as usize),
            decreases n - i,
        {
            let ghost s = run_to(infix@, i as int);
            proof {
                lemma_run_inv(infix@, i as int);
                assert(run_to(infix@, i as int + 1) == step(s, infix@[i as int]));
            }
            let c = istr.get_char(i);
            if is_letter_exec(c) {
                let vi = find_var_exec(&vars, c);
                proof {
                    lemma_find_var(vars@, c);
                }
                if vi < vars.len() {
                    word.push(vi);
                } else {
                    word.push(vars.len());
                    vars.push(c);
                    is_first.push(false);
                }
            } else {
                if word.len() > 0 {
                    let w0 = word[0];
                    is_first.set(w0, true);
                    out.push(Token::Word(word));
                    word = Vec::new();
                    proof {
                        assert(toks_model(out@) =~= flush_word(s).out);
                    }
                }
                let ghost f = flush_word(s);
                assert(toks_model(out@) == f.out);
                if is_op_exec(c) {
                    let p = prec_exec(c);
                    let ghost target = pop_higher(f.ops, f.out, prec(c));
                    loop
                        invariant_except_break
                            pop_higher(ops@, toks_model(out@), p as int) == target,
                            p as int == prec(c),
                        ensures
                            ops@ == target.0,
                            toks_model(out@) == target.1,
                        decreases ops@.len(),
                    {
                        if ops.len() == 0 {
                            break ;
                        }
                        let t = ops[ops.len() - 1];
                        if !(is_op_exec(t) && prec_exec(t) > p) {
                            break ;
                        }
                        let ghost prev_ops = ops@;
                        let ghost prev_out = toks_model(out@);
                        ops.pop();
                        out.push(Token::Operator(op_of_exec(t)));
                        proof {
                            assert(ops@ =~= prev_ops.drop_last());
                            assert(toks_model(out@) =~= prev_out.push(
                                SpecTok::Operator(op_of(t)),
                            ));
                        }
                    }
                    ops.push(c);
                } else if c == '(' {
                    ops.push(c);
                } else if c == ')' {
                    let ghost target = pop_to_paren(f.ops, f.out);
                    loop
                        invariant_except_break
                            pop_to_paren(ops@, toks_model(out@)) == target,
                            0 <= i < n,
                            n == infix@.len(),
                            istr@ == infix@,
                            s == run_to(infix@, i as int),
                            s.err is None,
                            infix@[i as int] == c,
                            c == ')',
                            !is_letter(c),
                            !is_op_char(c),
                            f == flush_word(s),
                            target == pop_to_paren(f.ops, f.out),
                        ensures
                            (target matches Some(pr) && ops@ == pr.0 && toks_model(out@) == pr.1),
                        decreases ops@.len(),
                    {
                        if ops.len() == 0 {
                            proof {
                                assert(run_to(infix@, i as int + 1).err == Some(
                                    ParseError::UnmatchedClose,
                                ));
                                lemma_err_sticky(infix@, i as int + 1, infix@.len() as int);
                            }
                            return Err(ParseError::UnmatchedClose);
                        }
                        let ghost prev_ops = ops@;
                        let ghost prev_out = toks_model(out@);
                        let t = ops[ops.len() - 1];
                        ops.pop();
                        proof {
                            assert(ops@ =~= prev_ops.drop_last());
                        }
                        if t == '(' {
                            break ;
                        }
                        out.push(Token::Operator(op_of_exec(t)));
                        proof {
                            assert(toks_model(out@) =~= prev_out.push(
                                SpecTok::Operator(op_of(t)),
                            ));
                        }
                    }
                }
            }
            i += 1;
        }
        let ghost s = run_to(infix@, n as int);
        proof {
            lemma_run_inv(infix@, n as int);
        }
        if word.len() > 0 {
            let w0 = word[0];
            is_first.set(w0, true);
            out.push(Token::Word(word));
            word = Vec::new();
            proof {
                assert(toks_model(out@) =~= flush_word(s).out);
            }
        }
        let ghost f = flush_word(s);
        assert(toks_model(out@) == f.out);
        let ghost target = drain_ops(f.ops, f.out);
        loop
            invariant_except_break
                drain_ops(ops@, toks_model(out@)) == target,
                s.err is None,
                f == flush_word(s),
                target == drain_ops(f.ops, f.out),
                s == run_to(infix@, infix@.len() as int),
            ensures
                (target matches Some(o) && toks_model(out@) == o && ops@.len() == 0),
            decreases ops@.len(),
        {
            if ops.len() == 0 {
                break ;
            }
            let ghost prev_ops = ops@;
            let ghost prev_out = toks_model(out@);
            let t = ops[ops.len() - 1];
            ops.pop();
            proof {
                assert(ops@ =~= prev_ops.drop_last());
            }
            if t == '(' {
                return Err(ParseError::UnmatchedOpen);
            }
            out.push(Token::Operator(op_of_exec(t)));
            proof {
                assert(toks_model(out@) =~= prev_out.push(SpecTok::Operator(op_of(t))));
            }
        }
        if vars.len() > 10 {
            return Err(ParseError::TooManyVariables);
        }
        if out.len() == 0 {
            return Err(ParseError::EmptyInput);
        }
        let nv = vars.len();
        let mut fvi: Vec<usize> = Vec::new();
        let mut j: usize = 0;
        while j < nv
            invariant
                0 <= j <= nv,
                nv == vars@.len(),
                is_first@.len() == nv,
                forall|x: int| 0 <= x < nv ==> is_first@[x] == f.lead.contains(x as usize),
                fvi@ == lead_indices(j as nat, f.lead),
            decreases nv - j,
        {
            if is_first[j] {
                fvi.push(j);
            }
            j += 1;
        }
        proof {
            lemma_lead_indices_bound(nv as nat, f.lead);
        }
        let eq = Equation { postfix: out, vars: vars, first_vars_index: fvi };
        proof {
            lemma_drain_ops_ok(f.ops, f.out, f.vars.len());
            assert forall|k: int| 0 <= k < eq.postfix@.len() implies wf_tok(
                #[trigger] eq.postfix@[k]@,
                eq.vars@.len(),
            ) by {
                assert(toks_model(eq.postfix@)[k] == eq.postfix@[k]@);
            }
        }
        Ok(eq)
    }
}

} // verus!
