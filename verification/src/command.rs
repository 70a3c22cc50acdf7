//! Command templates and the process descriptions made from them.

use vstd::prelude::*;
use vstd::string::*;
use crate::affinity::AffinityPair;
use crate::monitor::{snapshot, Monitor, MonitorView};
use crate::resolve::{get_monitors_for_affinities, resolved};
use crate::text::texts;

verus! {

/// A command to run with monitor affinity.
#[derive(Debug)]
pub struct Config {
    /// The program to run.
    pub cmd: String,
    /// Its arguments. Every `%s` in them is replaced by the name of the
    /// monitor that the command is run for.
    pub args: Option<Vec<String>>,
    /// The affinities that select the monitor, applied in order.
    pub affinities: Vec<AffinityPair>,
    /// Whether to run the command once for each selected monitor, and not
    /// only for the first.
    pub allow_multiple: bool,
    /// The environment variable that receives the monitor's name, if any.
    pub env: Option<String>,
}

/// The mathematical value of a [`Config`]. A template without an argument
/// list has the empty list.
pub ghost struct ConfigView {
    pub cmd: Seq<char>,
    pub args: Seq<Seq<char>>,
    pub affinities: Seq<AffinityPair>,
    pub allow_multiple: bool,
    pub env: Option<Seq<char>>,
}

impl View for Config {
    type V = ConfigView;

    open spec fn view(&self) -> ConfigView {
        ConfigView {
            cmd: self.cmd@,
            args: match self.args {
                Some(args) => texts(args@),
                None => Seq::empty(),
            },
            affinities: self.affinities@,
            allow_multiple: self.allow_multiple,
            env: match self.env {
                Some(name) => Some(name@),
                None => None,
            },
        }
    }
}

/// A process to start: nothing has been run when one is made.
#[derive(Debug)]
pub struct ProcessSpec {
    /// The program to run.
    pub program: String,
    /// The arguments to pass to it.
    pub argv: Vec<String>,
    /// The variables to set in its environment, each with its value.
    pub env: Vec<(String, String)>,
}

/// The mathematical value of a [`ProcessSpec`].
pub ghost struct ProcessSpecView {
    pub program: Seq<char>,
    pub argv: Seq<Seq<char>>,
    pub env: Seq<(Seq<char>, Seq<char>)>,
}

/// The views of a list of variable assignments.
pub open spec fn assignments(env: Seq<(String, String)>) -> Seq<(Seq<char>, Seq<char>)> {
    Seq::new(env.len(), |i: int| (env[i].0@, env[i].1@))
}

impl View for ProcessSpec {
    type V = ProcessSpecView;

    open spec fn view(&self) -> ProcessSpecView {
        ProcessSpecView {
            program: self.program@,
            argv: texts(self.argv@),
            env: assignments(self.env@),
        }
    }
}

/// The views of a list of process descriptions.
pub open spec fn processes(specs: Seq<ProcessSpec>) -> Seq<ProcessSpecView> {
    Seq::new(specs.len(), |i: int| specs[i]@)
}

/// The argument `arg` with every `%s` replaced by `name`, the occurrences
/// taken from left to right.
pub open spec fn substituted(arg: Seq<char>, name: Seq<char>) -> Seq<char>
    decreases arg.len(),
{
    if arg.len() == 0 {
        arg
    } else if arg.len() >= 2 && arg[0] == '%' && arg[1] == 's' {
        name + substituted(arg.skip(2), name)
    } else {
        seq![arg[0]] + substituted(arg.skip(1), name)
    }
}

/// The process that the template `t` describes for the monitor `m`.
pub open spec fn process_for(t: ConfigView, m: MonitorView) -> ProcessSpecView {
    ProcessSpecView {
        program: t.cmd,
        argv: Seq::new(t.args.len(), |i: int| substituted(t.args[i], m.name)),
        env: match t.env {
            Some(variable) => seq![(variable, m.name)],
            None => Seq::empty(),
        },
    }
}

/// The monitors of `selection` that the template `t` is run for: all of
/// them, or the first alone.
pub open spec fn targets(t: ConfigView, selection: Seq<MonitorView>) -> Seq<MonitorView> {
    if t.allow_multiple || selection.len() == 0 {
        selection
    } else {
        selection.take(1)
    }
}

/// The processes that the template `t` describes for `selection`: one for
/// each target, in the order of the selection.
pub open spec fn materialized(t: ConfigView, selection: Seq<MonitorView>) -> Seq<ProcessSpecView> {
    Seq::new(targets(t, selection).len(), |i: int| process_for(t, targets(t, selection)[i]))
}

/// The text `s` as the `Debug` formatting of strings writes it: between
/// double quotes, with the characters that need it escaped.
pub uninterp spec fn quoted(s: Seq<char>) -> Seq<char>;

/// Writes a string as a quoted literal.
///
/// Trusted: wraps `format!("{:?}", s)`, the `Debug` formatting of `str` in
/// std. The contract only gives its result a name: the result is a function
/// of the characters of `s` alone.
#[verifier::external_body]
fn quote(s: &str) -> (q: String)
    ensures
        q@ == quoted(s@),
{
    format!("{:?}", s)
}

/// The assignments `env` as they stand in front of a command: each as its
/// name, `=`, its value and a space.
pub open spec fn assignments_line(env: Seq<(Seq<char>, Seq<char>)>) -> Seq<char>
    decreases env.len(),
{
    if env.len() == 0 {
        Seq::empty()
    } else {
        assignments_line(env.drop_last()) + env.last().0 + seq!['='] + env.last().1 + seq![' ']
    }
}

/// The arguments `args` as they stand behind a program: each with a space in
/// front of it.
pub open spec fn arguments_line(args: Seq<Seq<char>>) -> Seq<char>
    decreases args.len(),
{
    if args.len() == 0 {
        Seq::empty()
    } else {
        arguments_line(args.drop_last()) + seq![' '] + args.last()
    }
}

/// A command on one line: the assignments, the program, the arguments.
pub open spec fn command_line(
    env: Seq<(Seq<char>, Seq<char>)>,
    program: Seq<char>,
    args: Seq<Seq<char>>,
) -> Seq<char> {
    assignments_line(env) + program + arguments_line(args)
}

/// The assignments `env` with each value quoted.
pub open spec fn quoted_values(env: Seq<(Seq<char>, Seq<char>)>) -> Seq<(Seq<char>, Seq<char>)> {
    Seq::new(env.len(), |i: int| (env[i].0, quoted(env[i].1)))
}

/// The texts `args`, each quoted.
pub open spec fn quoted_all(args: Seq<Seq<char>>) -> Seq<Seq<char>> {
    Seq::new(args.len(), |i: int| quoted(args[i]))
}

/// Writes a command on one line, the pieces taken as they are.
pub fn join_command_line(env: &Vec<(String, String)>, program: &str, args: &Vec<String>) -> (line:
    String)
    ensures
        line@ == command_line(assignments(env@), program@, texts(args@)),
{
    proof {
        reveal_strlit("=");
        reveal_strlit(" ");
    }
    assert("="@ =~= seq!['=']);
    assert(" "@ =~= seq![' ']);
    let mut line = String::new();
    let mut i: usize = 0;
    assert(assignments(env@).take(0) =~= Seq::empty());
    while i < env.len()
        invariant
            i <= env.len(),
            "="@ == seq!['='],
            " "@ == seq![' '],
            line@ == assignments_line(assignments(env@).take(i as int)),
        decreases env.len() - i,
    {
        line.append(env[i].0.as_str());
        line.append("=");
        line.append(env[i].1.as_str());
        line.append(" ");
        i += 1;
        assert(assignments(env@).take(i as int).drop_last() =~= assignments(env@).take(i - 1));
    }
    assert(assignments(env@).take(i as int) =~= assignments(env@));
    line.append(program);
    let ghost head = line@;
    let mut k: usize = 0;
    assert(texts(args@).take(0) =~= Seq::empty());
    assert(head + Seq::<char>::empty() =~= head);
    while k < args.len()
        invariant
            k <= args.len(),
            " "@ == seq![' '],
            line@ == head + arguments_line(texts(args@).take(k as int)),
        decreases args.len() - k,
    {
        let ghost sofar = arguments_line(texts(args@).take(k as int));
        line.append(" ");
        line.append(args[k].as_str());
        k += 1;
        assert(texts(args@).take(k as int).drop_last() =~= texts(args@).take(k - 1));
        assert(line@ =~= head + (sofar + seq![' '] + args@[k - 1]@));
    }
    assert(texts(args@).take(k as int) =~= texts(args@));
    line
}

impl ProcessSpec {
    /// Writes the process as a command line for a reader: the program, the
    /// arguments and the values of the variables are quoted, the names of
    /// the variables are not.
    pub fn render(&self) -> (line: String)
        ensures
            line@ == command_line(
                quoted_values(self@.env),
                quoted(self@.program),
                quoted_all(self@.argv),
            ),
    {
        let mut env: Vec<(String, String)> = Vec::new();
        let mut i: usize = 0;
        while i < self.env.len()
            invariant
                i <= self.env.len(),
                assignments(env@) == quoted_values(self@.env).take(i as int),
            decreases self.env.len() - i,
        {
            let ghost sofar = assignments(env@);
            env.push((self.env[i].0.clone(), quote(self.env[i].1.as_str())));
            assert(assignments(env@) =~= sofar.push(
                (self.env@[i as int].0@, quoted(self.env@[i as int].1@)),
            ));
            i += 1;
            assert(assignments(env@) =~= quoted_values(self@.env).take(i as int));
        }
        assert(quoted_values(self@.env).take(i as int) =~= quoted_values(self@.env));
        let mut args: Vec<String> = Vec::new();
        let mut k: usize = 0;
        while k < self.argv.len()
            invariant
                k <= self.argv.len(),
                texts(args@) == quoted_all(self@.argv).take(k as int),
            decreases self.argv.len() - k,
        {
            let ghost sofar = texts(args@);
            args.push(quote(self.argv[k].as_str()));
            assert(texts(args@) =~= sofar.push(quoted(self.argv@[k as int]@)));
            k += 1;
            assert(texts(args@) =~= quoted_all(self@.argv).take(k as int));
        }
        assert(quoted_all(self@.argv).take(k as int) =~= quoted_all(self@.argv));
        let program = quote(self.program.as_str());
        join_command_line(&env, program.as_str(), &args)
    }
}

/// Replaces every `%s` in `arg` by `name`.
pub fn substitute(arg: &str, name: &str) -> (out: String)
    ensures
        out@ == substituted(arg@, name@),
{
    let n = arg.unicode_len();
    let mut out = String::new();
    let mut i: usize = 0;
    assert(arg@.skip(0) =~= arg@);
    while i < n
        invariant
            i <= n,
            n == arg@.len(),
            substituted(arg@, name@) == out@ + substituted(arg@.skip(i as int), name@),
        decreases n - i,
    {
        let ghost rest = arg@.skip(i as int);
        let ghost sofar = out@;
        if i < n - 1 && arg.get_char(i) == '%' && arg.get_char(i + 1) == 's' {
            out.append(name);
            assert(rest.skip(2) =~= arg@.skip(i + 2));
            assert(sofar + (name@ + substituted(rest.skip(2), name@)) =~= out@ + substituted(
                rest.skip(2),
                name@,
            ));
            i += 2;
        } else {
            out.append(arg.substring_char(i, i + 1));
            assert(rest.skip(1) =~= arg@.skip(i + 1));
            assert(arg@.subrange(i as int, i + 1) =~= seq![rest[0]]);
            assert(sofar + (seq![rest[0]] + substituted(rest.skip(1), name@)) =~= out@
                + substituted(rest.skip(1), name@));
            i += 1;
        }
    }
    assert(out@ + Seq::<char>::empty() =~= out@);
    out
}

impl Config {
    /// Describes the process to run for the monitor `m`.
    pub fn process_for(&self, m: &Monitor) -> (spec: ProcessSpec)
        ensures
            spec@ == process_for(self@, m@),
    {
        let mut argv: Vec<String> = Vec::new();
        if let Some(args) = &self.args {
            let mut i: usize = 0;
            while i < args.len()
                invariant
                    i <= args.len(),
                    texts(argv@) == Seq::new(
                        i as nat,
                        |j: int| substituted(texts(args@)[j], m@.name),
                    ),
                decreases args.len() - i,
            {
                let ghost sofar = texts(argv@);
                argv.push(substitute(args[i].as_str(), m.name.as_str()));
                assert(texts(argv@) =~= sofar.push(substituted(args@[i as int]@, m@.name)));
                i += 1;
                assert(texts(argv@) =~= Seq::new(
                    i as nat,
                    |j: int| substituted(texts(args@)[j], m@.name),
                ));
            }
        }
        let mut env: Vec<(String, String)> = Vec::new();
        if let Some(variable) = &self.env {
            env.push((variable.clone(), m.name.clone()));
        }
        let spec = ProcessSpec { program: self.cmd.clone(), argv, env };
        assert(spec@.argv =~= process_for(self@, m@).argv);
        assert(spec@.env =~= process_for(self@, m@).env);
        spec
    }

    /// Describes the processes to run for `selection`: none if it is empty,
    /// else one for its first monitor, or, if the template allows several,
    /// one for each monitor, in the order of the selection.
    pub fn materialize(&self, selection: &[Monitor]) -> (specs: Vec<ProcessSpec>)
        ensures
            processes(specs@) == materialized(self@, snapshot(selection@)),
    {
        let count = if self.allow_multiple || selection.len() == 0 {
            selection.len()
        } else {
            1
        };
        let ghost chosen = targets(self@, snapshot(selection@));
        let mut specs: Vec<ProcessSpec> = Vec::new();
        let mut i: usize = 0;
        while i < count
            invariant
                i <= count <= selection.len(),
                count == chosen.len(),
                chosen == targets(self@, snapshot(selection@)),
                forall|j: int| 0 <= j < count ==> chosen[j] == selection@[j]@,
                processes(specs@) == Seq::new(i as nat, |j: int| process_for(self@, chosen[j])),
            decreases count - i,
        {
            let ghost sofar = processes(specs@);
            specs.push(self.process_for(&selection[i]));
            assert(processes(specs@) =~= sofar.push(process_for(self@, chosen[i as int])));
            i += 1;
            assert(processes(specs@) =~= Seq::new(
                i as nat,
                |j: int| process_for(self@, chosen[j]),
            ));
        }
        assert(processes(specs@) =~= materialized(self@, snapshot(selection@)));
        specs
    }

    /// Selects the monitors that match the template's affinities, and
    /// describes the processes to run for them.
    pub fn get_commands_for_monitors(&self, monitors: &[Monitor]) -> (specs: Vec<ProcessSpec>)
        ensures
            processes(specs@) == materialized(
                self@,
                resolved(self@.affinities, snapshot(monitors@)),
            ),
    {
        let selected = get_monitors_for_affinities(self.affinities.as_slice(), monitors);
        self.materialize(selected.as_slice())
    }
}

} // verus!
