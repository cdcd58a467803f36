use vstd::prelude::*;
use vstd::string::StringSliceAdditionalSpecFns;

verus! {

/// A variable to declare: its symbol and the printed text of its sort.
#[derive(Debug)]
pub struct Variable {
    pub name: Vec<u8>,
    pub sort: Vec<u8>,
}

impl View for Variable {
    type V = (Seq<u8>, Seq<u8>);

    open spec fn view(&self) -> (Seq<u8>, Seq<u8>) {
        (self.name@, self.sort@)
    }
}

/// One command of the engine's protocol; terms and sorts are held as their
/// printed text.
#[derive(Debug)]
pub enum Command {
    DeclareConst { symbol: Vec<u8>, sort: Vec<u8> },
    Assert { term: Vec<u8> },
    CheckSat,
    GetValue { terms: Vec<Vec<u8>> },
    Exit,
}

/// The mathematical model of a `Command`.
pub enum CommandModel {
    DeclareConst { symbol: Seq<u8>, sort: Seq<u8> },
    Assert { term: Seq<u8> },
    CheckSat,
    GetValue { terms: Seq<Seq<u8>> },
    Exit,
}

pub open spec fn texts(v: Seq<Vec<u8>>) -> Seq<Seq<u8>> {
    v.map_values(|t: Vec<u8>| t@)
}

impl View for Command {
    type V = CommandModel;

    open spec fn view(&self) -> CommandModel {
        match self {
            Command::DeclareConst { symbol, sort } => CommandModel::DeclareConst {
                symbol: symbol@,
                sort: sort@,
            },
            Command::Assert { term } => CommandModel::Assert { term: term@ },
            Command::CheckSat => CommandModel::CheckSat,
            Command::GetValue { terms } => CommandModel::GetValue { terms: texts(terms@) },
            Command::Exit => CommandModel::Exit,
        }
    }
}

pub open spec fn commands_model(cs: Seq<Command>) -> Seq<CommandModel> {
    cs.map_values(|c: Command| c@)
}

pub open spec fn variables_model(vs: Seq<Variable>) -> Seq<(Seq<u8>, Seq<u8>)> {
    vs.map_values(|v: Variable| v@)
}

/// The script for a problem: a declaration for each variable, each assertion
/// in the order given, one satisfiability check, one request for the values of
/// all variables in declaration order, and an exit.
pub open spec fn script_model(vars: Seq<(Seq<u8>, Seq<u8>)>, asserts: Seq<Seq<u8>>) -> Seq<
    CommandModel,
> {
    vars.map_values(
        |v: (Seq<u8>, Seq<u8>)| CommandModel::DeclareConst { symbol: v.0, sort: v.1 },
    ) + asserts.map_values(|a: Seq<u8>| CommandModel::Assert { term: a }) + seq![
        CommandModel::CheckSat,
        CommandModel::GetValue { terms: vars.map_values(|v: (Seq<u8>, Seq<u8>)| v.0) },
        CommandModel::Exit,
    ]
}

/// Builds the command sequence that asks the engine for a model of the
/// assertions over the variables.
pub fn script(variables: &Vec<Variable>, assertions: &Vec<Vec<u8>>) -> (r: Vec<Command>)
    ensures
        commands_model(r@) == script_model(variables_model(variables@), texts(assertions@)),
{
    let ghost vars = variables_model(variables@);
    let ghost asserts = texts(assertions@);
    let mut r: Vec<Command> = Vec::new();
    let mut names: Vec<Vec<u8>> = Vec::new();
    let mut i: usize = 0;
    while i < variables.len()
        invariant
            i <= variables@.len(),
            vars == variables_model(variables@),
            commands_model(r@) =~= vars.subrange(0, i as int).map_values(
                |v: (Seq<u8>, Seq<u8>)| CommandModel::DeclareConst { symbol: v.0, sort: v.1 },
            ),
            texts(names@) =~= vars.subrange(0, i as int).map_values(
                |v: (Seq<u8>, Seq<u8>)| v.0,
            ),
        decreases variables@.len() - i,
    {
        let v = &variables[i];
        r.push(Command::DeclareConst { symbol: v.name.clone(), sort: v.sort.clone() });
        names.push(v.name.clone());
        proof {
            let f = |v: (Seq<u8>, Seq<u8>)| CommandModel::DeclareConst { symbol: v.0, sort: v.1 };
            let g = |v: (Seq<u8>, Seq<u8>)| v.0;
            let prev = vars.subrange(0, i as int);
            assert(vars.subrange(0, i + 1) =~= prev.push(vars[i as int]));
            assert(prev.push(vars[i as int]).map_values(f) =~= prev.map_values(f).push(
                f(vars[i as int]),
            ));
            assert(prev.push(vars[i as int]).map_values(g) =~= prev.map_values(g).push(
                g(vars[i as int]),
            ));
            assert(commands_model(r@) =~= commands_model(r@.drop_last()).push(r@.last()@));
            assert(texts(names@) =~= texts(names@.drop_last()).push(names@.last()@));
        }
        i += 1;
    }
    let ghost decls = commands_model(r@);
    let mut j: usize = 0;
    while j < assertions.len()
        invariant
            j <= assertions@.len(),
            asserts == texts(assertions@),
            commands_model(r@) =~= decls + asserts.subrange(0, j as int).map_values(
                |a: Seq<u8>| CommandModel::Assert { term: a },
            ),
        decreases assertions@.len() - j,
    {
        r.push(Command::Assert { term: assertions[j].clone() });
        proof {
            let f = |a: Seq<u8>| CommandModel::Assert { term: a };
            let prev = asserts.subrange(0, j as int);
            assert(asserts.subrange(0, j + 1) =~= prev.push(asserts[j as int]));
            assert(prev.push(asserts[j as int]).map_values(f) =~= prev.map_values(f).push(
                f(asserts[j as int]),
            ));
            assert(commands_model(r@) =~= commands_model(r@.drop_last()).push(r@.last()@));
            assert((decls + prev.map_values(f)).push(f(asserts[j as int])) =~= decls + prev.map_values(
                f,
            ).push(f(asserts[j as int])));
        }
        j += 1;
    }
    r.push(Command::CheckSat);
    r.push(Command::GetValue { terms: names });
    r.push(Command::Exit);
    assert(vars.subrange(0, vars.len() as int) =~= vars);
    assert(asserts.subrange(0, asserts.len() as int) =~= asserts);
    assert(commands_model(r@) =~= script_model(vars, asserts));
    r
}

/// The texts separated by single spaces.
pub open spec fn joined(ts: Seq<Seq<u8>>) -> Seq<u8>
    decreases ts.len(),
{
    if ts.len() == 0 {
        seq![]
    } else if ts.len() == 1 {
        ts[0]
    } else {
        joined(ts.drop_last()) + seq![32u8] + ts.last()
    }
}

/// The protocol text of one command, a line of its own.
pub open spec fn command_text(c: CommandModel) -> Seq<u8> {
    match c {
        CommandModel::DeclareConst { symbol, sort } => "(declare-const ".spec_bytes() + symbol
            + seq![32u8] + sort + ")\n".spec_bytes(),
        CommandModel::Assert { term } => "(assert ".spec_bytes() + term + ")\n".spec_bytes(),
        CommandModel::CheckSat => "(check-sat)\n".spec_bytes(),
        CommandModel::GetValue { terms } => "(get-value (".spec_bytes() + joined(terms)
            + "))\n".spec_bytes(),
        CommandModel::Exit => "(exit)\n".spec_bytes(),
    }
}

/// The protocol text of a command sequence: the commands' lines in order.
pub open spec fn script_text(cs: Seq<CommandModel>) -> Seq<u8>
    decreases cs.len(),
{
    if cs.len() == 0 {
        seq![]
    } else {
        script_text(cs.drop_last()) + command_text(cs.last())
    }
}

fn push_bytes(out: &mut Vec<u8>, s: &[u8])
    ensures
        final(out)@ == old(out)@ + s@,
{
    let ghost start = out@;
    let mut i: usize = 0;
    while i < s.len()
        invariant
            i <= s@.len(),
            out@ == start + s@.subrange(0, i as int),
        decreases s@.len() - i,
    {
        out.push(s[i]);
        i += 1;
        assert(out@ =~= start + s@.subrange(0, i as int));
    }
    assert(s@.subrange(0, s@.len() as int) =~= s@);
}

fn push_str(out: &mut Vec<u8>, s: &str)
    ensures
        final(out)@ == old(out)@ + s.spec_bytes(),
{
    push_bytes(out, s.as_bytes());
}

fn push_joined(out: &mut Vec<u8>, ts: &Vec<Vec<u8>>)
    ensures
        final(out)@ == old(out)@ + joined(texts(ts@)),
{
    let ghost start = out@;
    let ghost all = texts(ts@);
    let mut i: usize = 0;
    while i < ts.len()
        invariant
            i <= ts@.len(),
            all == texts(ts@),
            out@ == start + joined(all.subrange(0, i as int)),
        decreases ts@.len() - i,
    {
        let ghost before = out@;
        if i > 0 {
            out.push(32u8);
        }
        push_bytes(out, ts[i].as_slice());
        proof {
            let prev = all.subrange(0, i as int);
            let next = all.subrange(0, i + 1);
            assert(next.drop_last() =~= prev);
            assert(next.last() == ts@[i as int]@);
            if i == 0 {
                assert(joined(prev) =~= seq![]);
                assert(out@ =~= start + joined(next));
            } else {
                assert(out@ =~= start + joined(next));
            }
        }
        i += 1;
    }
    assert(all.subrange(0, ts@.len() as int) =~= all);
}

/// Writes a command sequence as protocol text, one command per line.
pub fn script_to_text(cs: &Vec<Command>) -> (r: Vec<u8>)
    ensures
        r@ == script_text(commands_model(cs@)),
{
    let ghost all = commands_model(cs@);
    let mut out: Vec<u8> = Vec::new();
    let mut i: usize = 0;
    while i < cs.len()
        invariant
            i <= cs@.len(),
            all == commands_model(cs@),
            out@ == script_text(all.subrange(0, i as int)),
        decreases cs@.len() - i,
    {
        let ghost before = out@;
        match &cs[i] {
            Command::DeclareConst { symbol, sort } => {
                push_str(&mut out, "(declare-const ");
                push_bytes(&mut out, symbol.as_slice());
                out.push(32u8);
                push_bytes(&mut out, sort.as_slice());
                push_str(&mut out, ")\n");
            },
            Command::Assert { term } => {
                push_str(&mut out, "(assert ");
                push_bytes(&mut out, term.as_slice());
                push_str(&mut out, ")\n");
            },
            Command::CheckSat => {
                push_str(&mut out, "(check-sat)\n");
            },
            Command::GetValue { terms } => {
                push_str(&mut out, "(get-value (");
                push_joined(&mut out, terms);
                push_str(&mut out, "))\n");
            },
            Command::Exit => {
                push_str(&mut out, "(exit)\n");
            },
        }
        proof {
            let next = all.subrange(0, i + 1);
            assert(next.drop_last() =~= all.subrange(0, i as int));
            assert(next.last() == cs@[i as int]@);
            assert(out@ =~= before + command_text(cs@[i as int]@));
        }
        i += 1;
    }
    assert(all.subrange(0, cs@.len() as int) =~= all);
    out
}

} // verus!
