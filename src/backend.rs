use vstd::prelude::*;

use crate::error::Error;
use crate::lexer::Lexer;
use crate::parser::{
    parse, program_at, statements_view, Assignment, AssignmentModel, Print, PrintModel,
    Statement, StatementModel,
};

verus! {

/// The map from names to values that a list of bindings stands for; a later
/// binding of a name overrides an earlier one.
pub open spec fn bindings_map(s: Seq<(String, String)>) -> Map<Seq<char>, Seq<char>>
    decreases s.len(),
{
    if s.len() == 0 {
        Map::empty()
    } else {
        bindings_map(s.drop_last()).insert(s.last().0@, s.last().1@)
    }
}

/// No name is bound twice.
pub open spec fn unique_names(s: Seq<(String, String)>) -> bool {
    forall|i: int, j: int| 0 <= i < j < s.len() ==> s[i].0@ != s[j].0@
}

proof fn lemma_bindings_lookup(s: Seq<(String, String)>, k: Seq<char>)
    requires
        unique_names(s),
    ensures
        bindings_map(s).contains_key(k) <==> exists|i: int| 0 <= i < s.len() && s[i].0@ == k,
        forall|i: int| 0 <= i < s.len() && s[i].0@ == k ==> bindings_map(s)[k] == s[i].1@,
    decreases s.len(),
{
    if s.len() > 0 {
        let t = s.drop_last();
        lemma_bindings_lookup(t, k);
        if bindings_map(t).contains_key(k) {
            let i = choose|i: int| 0 <= i < t.len() && t[i].0@ == k;
            assert(s[i].0@ == k);
        }
        if exists|i: int| 0 <= i < s.len() && s[i].0@ == k {
            let i = choose|i: int| 0 <= i < s.len() && s[i].0@ == k;
            if i < s.len() - 1 {
                assert(t[i].0@ == k);
            }
        }
    }
}

proof fn lemma_bindings_update(s: Seq<(String, String)>, i: int, b: (String, String))
    requires
        unique_names(s),
        0 <= i < s.len(),
        s[i].0@ == b.0@,
    ensures
        bindings_map(s.update(i, b)) == bindings_map(s).insert(b.0@, b.1@),
        unique_names(s.update(i, b)),
    decreases s.len(),
{
    let u = s.update(i, b);
    if i < s.len() - 1 {
        assert(u.drop_last() =~= s.drop_last().update(i, b));
        lemma_bindings_update(s.drop_last(), i, b);
        assert(bindings_map(u) =~= bindings_map(s).insert(b.0@, b.1@));
    } else {
        assert(u.drop_last() =~= s.drop_last());
        assert(bindings_map(u) =~= bindings_map(s).insert(b.0@, b.1@));
    }
}

/// The effect of one statement on an environment and the output so far.
pub open spec fn apply(
    env: Map<Seq<char>, Seq<char>>,
    out: Seq<char>,
    s: StatementModel,
) -> Result<(Map<Seq<char>, Seq<char>>, Seq<char>), Error> {
    match s {
        StatementModel::Assign(a) => Ok((env.insert(a.var.name, a.value), out)),
        StatementModel::Print(p) => if env.contains_key(p.var.name) {
            Ok((env, out + env[p.var.name] + seq!['\n']))
        } else {
            Err(Error::UnboundVariable { line: p.line })
        },
    }
}

/// Runs statements in order from an environment and an output: the final
/// environment, the output, and the error that stopped the run, if any.
pub open spec fn run(
    env: Map<Seq<char>, Seq<char>>,
    out: Seq<char>,
    stmts: Seq<StatementModel>,
) -> (Map<Seq<char>, Seq<char>>, Seq<char>, Option<Error>)
    decreases stmts.len(),
{
    if stmts.len() == 0 {
        (env, out, None)
    } else {
        let prev = run(env, out, stmts.drop_last());
        if prev.2 is Some {
            prev
        } else {
            match apply(prev.0, prev.1, stmts.last()) {
                Ok((e, o)) => (e, o, None),
                Err(err) => (prev.0, prev.1, Some(err)),
            }
        }
    }
}

pub open spec fn as_result(err: Option<Error>) -> Result<(), Error> {
    match err {
        Some(e) => Err(e),
        None => Ok(()),
    }
}

/// Once a run has failed, later statements change nothing.
proof fn lemma_run_stops(
    env: Map<Seq<char>, Seq<char>>,
    out: Seq<char>,
    s: Seq<StatementModel>,
    k: int,
)
    requires
        0 <= k <= s.len(),
        run(env, out, s.take(k)).2 is Some,
    ensures
        run(env, out, s) == run(env, out, s.take(k)),
    decreases s.len(),
{
    if s.len() == k {
        assert(s.take(k) =~= s);
    } else {
        assert(s.drop_last().take(k) =~= s.take(k));
        lemma_run_stops(env, out, s.drop_last(), k);
    }
}

/// Running `a + b` runs `a`, then `b` from where `a` left off, unless `a`
/// failed: statements take effect in the order of the sequence.
pub proof fn lemma_run_concat(
    env: Map<Seq<char>, Seq<char>>,
    out: Seq<char>,
    a: Seq<StatementModel>,
    b: Seq<StatementModel>,
)
    ensures
        run(env, out, a + b) == ({
            let first = run(env, out, a);
            if first.2 is Some {
                first
            } else {
                run(first.0, first.1, b)
            }
        }),
    decreases b.len(),
{
    if b.len() == 0 {
        assert(a + b =~= a);
    } else {
        assert((a + b).drop_last() =~= a + b.drop_last());
        assert((a + b).last() == b.last());
        lemma_run_concat(env, out, a, b.drop_last());
    }
}

/// Assigning a name twice keeps only the second value: the two assignments
/// together act as the second alone, and a `print` of the name after them
/// writes the second value.
pub proof fn lemma_reassignment_keeps_last(
    env: Map<Seq<char>, Seq<char>>,
    out: Seq<char>,
    first: AssignmentModel,
    second: AssignmentModel,
    p: PrintModel,
)
    requires
        first.var.name == second.var.name,
        p.var.name == second.var.name,
    ensures
        run(env, out, seq![StatementModel::Assign(first), StatementModel::Assign(second)])
            == run(env, out, seq![StatementModel::Assign(second)]),
        run(
            env,
            out,
            seq![
                StatementModel::Assign(first),
                StatementModel::Assign(second),
                StatementModel::Print(p),
            ],
        ) == (env.insert(second.var.name, second.value), out + second.value + seq!['\n'], None::<
            Error,
        >),
{
    let a1 = StatementModel::Assign(first);
    let a2 = StatementModel::Assign(second);
    let pr = StatementModel::Print(p);
    let name = second.var.name;
    reveal_with_fuel(run, 4);
    assert(seq![a1, a2].drop_last() =~= seq![a1]);
    assert(seq![a1].drop_last() =~= Seq::<StatementModel>::empty());
    assert(seq![a2].drop_last() =~= Seq::<StatementModel>::empty());
    assert(seq![a1, a2, pr].drop_last() =~= seq![a1, a2]);
    assert(env.insert(name, first.value).insert(name, second.value) =~= env.insert(
        name,
        second.value,
    ));
}

/// A value assigned to a name is printed exactly as it was assigned,
/// followed by a newline.
pub proof fn lemma_print_after_assignment(
    env: Map<Seq<char>, Seq<char>>,
    out: Seq<char>,
    a: AssignmentModel,
    p: PrintModel,
)
    requires
        p.var.name == a.var.name,
    ensures
        run(env, out, seq![StatementModel::Assign(a), StatementModel::Print(p)]) == (
            env.insert(a.var.name, a.value),
            out + a.value + seq!['\n'],
            None::<Error>,
        ),
{
    let s = seq![StatementModel::Assign(a), StatementModel::Print(p)];
    reveal_with_fuel(run, 3);
    assert(s.drop_last() =~= seq![StatementModel::Assign(a)]);
    assert(seq![StatementModel::Assign(a)].drop_last() =~= Seq::<StatementModel>::empty());
}

pub open spec fn assigns(s: StatementModel, name: Seq<char>) -> bool {
    s is Assign && s->Assign_0.var.name == name
}

/// A `print` of a name that neither the starting environment nor any earlier
/// statement binds makes the run fail.
pub proof fn lemma_unbound_print_fails(
    env: Map<Seq<char>, Seq<char>>,
    out: Seq<char>,
    stmts: Seq<StatementModel>,
    i: int,
)
    requires
        0 <= i < stmts.len(),
        stmts[i] is Print,
        !env.contains_key(stmts[i]->Print_0.var.name),
        forall|j: int| 0 <= j < i ==> !assigns(#[trigger] stmts[j], stmts[i]->Print_0.var.name),
    ensures
        run(env, out, stmts).2 is Some,
{
    let name = stmts[i]->Print_0.var.name;
    lemma_unbound_prefix(env, out, stmts, name, i);
    assert(stmts.take(i + 1).drop_last() =~= stmts.take(i));
    assert(stmts.take(i + 1).last() == stmts[i]);
    lemma_run_stops(env, out, stmts, i + 1);
}

proof fn lemma_unbound_prefix(
    env: Map<Seq<char>, Seq<char>>,
    out: Seq<char>,
    stmts: Seq<StatementModel>,
    name: Seq<char>,
    k: int,
)
    requires
        0 <= k <= stmts.len(),
        !env.contains_key(name),
        forall|j: int| 0 <= j < k ==> !assigns(#[trigger] stmts[j], name),
    ensures
        run(env, out, stmts.take(k)).2 is Some || !run(env, out, stmts.take(k)).0.contains_key(
            name,
        ),
    decreases k,
{
    if k > 0 {
        lemma_unbound_prefix(env, out, stmts, name, k - 1);
        assert(stmts.take(k).drop_last() =~= stmts.take(k - 1));
        assert(stmts.take(k).last() == stmts[k - 1]);
        assert(!assigns(stmts[k - 1], name));
    }
}

/// Owns the lexer, the variables and what `print` has written.
pub struct Interpreter {
    lexer: Lexer,
    variables: Vec<(String, String)>,
    output: String,
}

impl Interpreter {
    /// The current environment.
    pub closed spec fn env(&self) -> Map<Seq<char>, Seq<char>> {
        bindings_map(self.variables@)
    }

    /// All that `print` has written so far.
    pub closed spec fn out(&self) -> Seq<char> {
        self.output@
    }

    /// The source text of the owned lexer.
    pub closed spec fn source(&self) -> Seq<char> {
        self.lexer.text()
    }

    /// Where the owned lexer reads next.
    pub closed spec fn position(&self) -> int {
        self.lexer.cursor()
    }

    pub closed spec fn wf(&self) -> bool {
        self.lexer.wf() && unique_names(self.variables@)
    }

    /// An interpreter with an empty environment that will run `lexer`'s source.
    pub fn new(lexer: Lexer) -> (r: Interpreter)
        requires
            lexer.wf(),
        ensures
            r.wf(),
            r.env() == Map::<Seq<char>, Seq<char>>::empty(),
            r.out() == Seq::<char>::empty(),
            r.source() == lexer.text(),
            r.position() == lexer.cursor(),
    {
        let variables = Vec::new();
        Interpreter { lexer, variables, output: String::new() }
    }

    /// What `print` has written so far, each value followed by a newline.
    pub fn output(&self) -> (r: &String)
        ensures
            r@ == self.out(),
    {
        &self.output
    }

    /// The index of the binding of `name`, if there is one.
    fn find(&self, name: &String) -> (r: Option<usize>)
        requires
            self.wf(),
        ensures
            match r {
                Some(i) => i < self.variables@.len() && self.variables@[i as int].0@ == name@,
                None => forall|i: int|
                    0 <= i < self.variables@.len() ==> self.variables@[i].0@ != name@,
            },
    {
        let mut i: usize = 0;
        while i < self.variables.len()
            invariant
                i <= self.variables@.len(),
                forall|j: int| 0 <= j < i ==> self.variables@[j].0@ != name@,
            decreases self.variables.len() - i,
        {
            if self.variables[i].0 == *name {
                return Some(i);
            }
            i = i + 1;
        }
        None
    }

    /// Binds `name` to `value`, replacing an earlier binding of `name`.
    fn bind(&mut self, name: String, value: String)
        requires
            old(self).wf(),
        ensures
            final(self).wf(),
            final(self).env() == old(self).env().insert(name@, value@),
            final(self).out() == old(self).out(),
            final(self).source() == old(self).source(),
            final(self).position() == old(self).position(),
    {
        let ghost k = name@;
        let ghost v = value@;
        match self.find(&name) {
            Some(i) => {
                proof {
                    lemma_bindings_update(self.variables@, i as int, (name, value));
                }
                self.variables.set(i, (name, value));
            },
            None => {
                let ghost s = self.variables@;
                self.variables.push((name, value));
                proof {
                    assert(self.variables@.drop_last() =~= s);
                }
            },
        }
    }

    /// Parses the whole rest of the source, then runs its statements in
    /// order. A parse error runs nothing; an unbound name stops the run at its
    /// `print`, after the output of the statements before it.
    pub fn execute(&mut self) -> (r: Result<(), Error>)
        requires
            old(self).wf(),
        ensures
            final(self).wf(),
            final(self).source() == old(self).source(),
            match program_at(old(self).source(), old(self).position()) {
                Ok(stmts) => {
                    let after = run(old(self).env(), old(self).out(), stmts);
                    &&& final(self).env() == after.0
                    &&& final(self).out() == after.1
                    &&& r == as_result(after.2)
                },
                Err(e) => {
                    &&& r == Err::<(), Error>(e)
                    &&& final(self).env() == old(self).env()
                    &&& final(self).out() == old(self).out()
                },
            },
    {
        let ghost env0 = self.env();
        let ghost out0 = self.out();
        let ast = parse(&mut self.lexer)?;
        let ghost stmts = statements_view(ast@);
        let mut i: usize = 0;
        while i < ast.len()
            invariant
                self.wf(),
                self.source() == old(self).source(),
                stmts == statements_view(ast@),
                env0 == old(self).env(),
                out0 == old(self).out(),
                program_at(old(self).source(), old(self).position()) == Ok::<
                    Seq<StatementModel>,
                    Error,
                >(stmts),
                i <= ast@.len(),
                run(env0, out0, stmts.take(i as int)) == (self.env(), self.out(), None::<Error>),
            decreases ast.len() - i,
        {
            proof {
                assert(stmts.take(i + 1).drop_last() =~= stmts.take(i as int));
                assert(stmts.take(i + 1).last() == ast@[i as int]@);
            }
            let step = ast[i].resolve(self);
            if let Err(e) = step {
                proof {
                    lemma_run_stops(env0, out0, stmts, i + 1);
                }
                return Err(e);
            }
            i = i + 1;
        }
        proof {
            assert(stmts.take(i as int) =~= stmts);
        }
        Ok(())
    }
}

impl Assignment {
    /// Binds the variable's name to the literal.
    pub fn resolve(&self, interp: &mut Interpreter)
        requires
            old(interp).wf(),
        ensures
            final(interp).wf(),
            final(interp).env() == old(interp).env().insert(self.var.name@, self.string@),
            final(interp).out() == old(interp).out(),
            final(interp).source() == old(interp).source(),
            final(interp).position() == old(interp).position(),
    {
        interp.bind(self.var.name.clone(), self.string.clone());
    }
}

impl Print {
    /// Writes the variable's value and a newline, or fails if the name is
    /// unbound.
    pub fn resolve(&self, interp: &mut Interpreter) -> (r: Result<(), Error>)
        requires
            old(interp).wf(),
        ensures
            final(interp).wf(),
            final(interp).env() == old(interp).env(),
            final(interp).source() == old(interp).source(),
            final(interp).position() == old(interp).position(),
            old(interp).env().contains_key(self.var.name@) ==> r is Ok && final(interp).out()
                == old(interp).out() + old(interp).env()[self.var.name@] + seq!['\n'],
            !old(interp).env().contains_key(self.var.name@) ==> r == Err::<(), Error>(
                Error::UnboundVariable { line: self.line },
            ) && final(interp).out() == old(interp).out(),
    {
        proof {
            lemma_bindings_lookup(interp.variables@, self.var.name@);
        }
        match interp.find(&self.var.name) {
            Some(i) => {
                interp.output.append(interp.variables[i].1.as_str());
                interp.output.append("\n");
                proof {
                    reveal_strlit("\n");
                }
                Ok(())
            },
            None => Err(Error::UnboundVariable { line: self.line }),
        }
    }
}

impl Statement {
    /// Applies the statement's effect.
    pub fn resolve(&self, interp: &mut Interpreter) -> (r: Result<(), Error>)
        requires
            old(interp).wf(),
        ensures
            final(interp).wf(),
            final(interp).source() == old(interp).source(),
            final(interp).position() == old(interp).position(),
            match apply(old(interp).env(), old(interp).out(), self@) {
                Ok((env, out)) => r is Ok && final(interp).env() == env && final(interp).out()
                    == out,
                Err(e) => r == Err::<(), Error>(e) && final(interp).env() == old(interp).env()
                    && final(interp).out() == old(interp).out(),
            },
    {
        match self {
            Statement::Assignment(a) => {
                a.resolve(interp);
                Ok(())
            },
            Statement::Print(p) => p.resolve(interp),
        }
    }
}

} // verus!
