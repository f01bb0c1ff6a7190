//! The decisions of the gash shell: how a line becomes commands, pipelines,
//! redirections and built-in commands, and what the shell keeps as history.
//! Running the programs is left to the caller.
use vstd::prelude::*;
use crate::text::{
    append_chars, chars_eq, copy_chars, decimal_chars, lemma_split_spec_len, nonempty_pieces,
    push_decimal_chars, split, split_nonempty, split_spec, trim, trim_end_by, trim_end_char,
    trim_spec, views,
};

verus! {

/// The words of a command line: its non-empty pieces between spaces.
pub open spec fn words(s: Seq<char>) -> Seq<Seq<char>> {
    nonempty_pieces(split_spec(s, ' '))
}

/// The words of a command line (the program and its arguments).
pub fn split_args(cmd_line: &[char]) -> (argv: Vec<Vec<char>>)
    ensures
        views(argv@) == words(cmd_line@),
{
    split_nonempty(cmd_line, ' ')
}

/// The program and arguments of a command: its first word and the words
/// after it, or `None` when it has no words and nothing is to run.
pub fn program_and_args(cmd_line: &[char]) -> (r: Option<(Vec<char>, Vec<Vec<char>>)>)
    ensures
        match r {
            None => words(cmd_line@).len() == 0,
            Some((program, args)) => words(cmd_line@).len() > 0 && program@ == words(cmd_line@)[0]
                && views(args@) == words(cmd_line@).drop_first(),
        },
{
    let mut argv = split_args(cmd_line);
    if argv.len() == 0 {
        return None;
    }
    let ghost all = views(argv@);
    let program = argv.remove(0);
    assert(views(argv@) =~= all.drop_first());
    Some((program, argv))
}

/// One command of a pipeline: its text, the pipe it reads from (else the
/// shell's input), the pipe it writes to (else the shell's output, or the
/// output collected from the last command), and whether it runs alongside
/// the shell instead of being waited for.
pub struct Stage {
    pub command: Vec<char>,
    pub stdin_pipe: Option<usize>,
    pub stdout_pipe: Option<usize>,
    pub background: bool,
}

/// Stage `i` of `n` reads from pipe `i - 1` and writes to pipe `i`, except
/// at the ends; all but the last run alongside the shell, the last as
/// `last_background` says.
pub open spec fn stage_wiring(st: Stage, i: int, n: int, last_background: bool) -> bool {
    &&& st.stdin_pipe == (if i == 0 {
        None
    } else {
        Some((i - 1) as usize)
    })
    &&& st.stdout_pipe == (if i == n - 1 {
        None
    } else {
        Some(i as usize)
    })
    &&& st.background == (if i == n - 1 {
        last_background
    } else {
        true
    })
}

/// The stages made of `commands`: stage `i` runs `commands[i]`.
pub open spec fn stages_spec(
    stages: Seq<Stage>,
    commands: Seq<Seq<char>>,
    last_background: bool,
) -> bool {
    &&& stages.len() == commands.len()
    &&& forall|i: int|
        0 <= i < stages.len() ==> (#[trigger] stages[i]).command@ == commands[i] && stage_wiring(
            stages[i],
            i,
            stages.len() as int,
            last_background,
        )
}

/// Law: a pipeline joins neighbours.  Pipe `k` is written by stage `k`
/// alone and read by stage `k + 1` alone; the first stage reads the shell's
/// input and the last writes the shell's output.
pub proof fn law_pipes_join_neighbours(
    stages: Seq<Stage>,
    commands: Seq<Seq<char>>,
    last_background: bool,
    k: int,
)
    requires
        stages_spec(stages, commands, last_background),
        stages.len() <= usize::MAX,
        0 <= k < stages.len() - 1,
    ensures
        stages[k].stdout_pipe == Some(k as usize),
        stages[k + 1].stdin_pipe == Some(k as usize),
        forall|j: int|
            0 <= j < stages.len() && (#[trigger] stages[j]).stdout_pipe == Some(k as usize)
                ==> j == k,
        forall|j: int|
            0 <= j < stages.len() && (#[trigger] stages[j]).stdin_pipe == Some(k as usize) ==> j
                == k + 1,
        stages[0].stdin_pipe is None,
        stages[stages.len() - 1].stdout_pipe is None,
{
    assert(stage_wiring(stages[k], k, stages.len() as int, last_background));
    assert(stage_wiring(stages[k + 1], k + 1, stages.len() as int, last_background));
    assert(stage_wiring(stages[0], 0, stages.len() as int, last_background));
    assert(stage_wiring(
        stages[stages.len() - 1],
        stages.len() - 1,
        stages.len() as int,
        last_background,
    ));
    assert forall|j: int|
        0 <= j < stages.len() && (#[trigger] stages[j]).stdout_pipe == Some(k as usize) implies j
        == k by {
        assert(stage_wiring(stages[j], j, stages.len() as int, last_background));
    }
    assert forall|j: int|
        0 <= j < stages.len() && (#[trigger] stages[j]).stdin_pipe == Some(k as usize) implies j
        == k + 1 by {
        assert(stage_wiring(stages[j], j, stages.len() as int, last_background));
    }
}

/// The stages that run `commands`, joined by pipes.
fn stages_of(commands: Vec<Vec<char>>, last_background: bool) -> (r: Vec<Stage>)
    ensures
        stages_spec(r@, views(commands@), last_background),
{
    let n = commands.len();
    let mut r: Vec<Stage> = Vec::new();
    let mut i: usize = 0;
    while i < n
        invariant
            n == commands@.len(),
            i <= n,
            r@.len() == i,
            forall|j: int|
                0 <= j < i ==> (#[trigger] r@[j]).command@ == commands@[j]@ && stage_wiring(
                    r@[j],
                    j,
                    n as int,
                    last_background,
                ),
        decreases n - i,
    {
        let command = copy_chars(commands[i].as_slice(), 0, commands[i].len());
        assert(command@ =~= commands@[i as int]@);
        let stdin_pipe = if i == 0 {
            None
        } else {
            Some(i - 1)
        };
        let stdout_pipe = if i == n - 1 {
            None
        } else {
            Some(i)
        };
        let background = if i == n - 1 {
            last_background
        } else {
            true
        };
        r.push(Stage { command, stdin_pipe, stdout_pipe, background });
        i = i + 1;
    }
    r
}

/// The commands of a pipeline line, as the web server's gash runs them:
/// the pieces between `|`, trimmed.
pub open spec fn trimmed_pieces(s: Seq<char>) -> Seq<Seq<char>> {
    split_spec(s, '|').map_values(|p: Seq<char>| trim_spec(p))
}

/// A command line of the web server's gash as a pipeline: one stage per
/// piece between `|`, trimmed; the last stage's output is collected and it
/// is waited for.
pub fn plan_cmdline(cmd_line: &[char]) -> (r: Vec<Stage>)
    ensures
        stages_spec(r@, trimmed_pieces(cmd_line@), false),
        r@.len() >= 1,
{
    let pieces = split(cmd_line, '|');
    let mut commands: Vec<Vec<char>> = Vec::new();
    let mut i: usize = 0;
    while i < pieces.len()
        invariant
            i <= pieces@.len(),
            views(pieces@) == split_spec(cmd_line@, '|'),
            commands@.len() == i,
            forall|j: int|
                0 <= j < i ==> (#[trigger] commands@[j])@ == trim_spec(pieces@[j]@),
        decreases pieces@.len() - i,
    {
        let t = trim(pieces[i].as_slice());
        commands.push(t);
        i = i + 1;
    }
    proof {
        lemma_split_spec_len(cmd_line@, '|');
        assert(views(commands@) =~= trimmed_pieces(cmd_line@));
    }
    stages_of(commands, false)
}

/// A command line of the interactive gash as a pipeline: one stage per
/// non-empty piece between `|`, as it stands; the last stage runs in the
/// background when `background` is set.
pub fn plan_shell_cmdline(cmd_line: &[char], background: bool) -> (r: Vec<Stage>)
    ensures
        stages_spec(r@, nonempty_pieces(split_spec(cmd_line@, '|')), background),
{
    let commands = split_nonempty(cmd_line, '|');
    stages_of(commands, background)
}

/// A command line of the first gash as a pipeline: one stage per piece
/// between `|`, empty pieces included.
pub fn plan_raw_cmdline(cmd_line: &[char], background: bool) -> (r: Vec<Stage>)
    ensures
        stages_spec(r@, split_spec(cmd_line@, '|'), background),
{
    let commands = split(cmd_line, '|');
    stages_of(commands, background)
}

/// A built-in command or a program to run.
pub enum Command {
    /// Nothing to run (no words).
    Nothing,
    /// Print the help text.
    Help,
    /// Change directory, to the first argument if there is one.
    Cd(Option<Vec<char>>),
    /// Leave the shell.
    Exit,
    /// Run `program` with `args`.
    Run { program: Vec<char>, args: Vec<Vec<char>> },
}

pub open spec fn help_word() -> Seq<char> {
    seq!['h', 'e', 'l', 'p']
}

pub open spec fn cd_word() -> Seq<char> {
    seq!['c', 'd']
}

pub open spec fn exit_word() -> Seq<char> {
    seq!['e', 'x', 'i', 't']
}

pub open spec fn history_word() -> Seq<char> {
    seq!['h', 'i', 's', 't', 'o', 'r', 'y']
}

/// What the words `argv` ask for, as a view.
pub enum CommandSpec {
    Nothing,
    Help,
    Cd(Option<Seq<char>>),
    Exit,
    Run(Seq<char>, Seq<Seq<char>>),
}

pub open spec fn command_view(c: Command) -> CommandSpec {
    match c {
        Command::Nothing => CommandSpec::Nothing,
        Command::Help => CommandSpec::Help,
        Command::Cd(d) => CommandSpec::Cd(
            match d {
                Some(x) => Some(x@),
                None => None,
            },
        ),
        Command::Exit => CommandSpec::Exit,
        Command::Run { program, args } => CommandSpec::Run(program@, views(args@)),
    }
}

/// The meaning of the words `argv`: `help`, `cd`, `exit`, or a program.
pub open spec fn dispatch_spec(argv: Seq<Seq<char>>) -> CommandSpec {
    if argv.len() == 0 {
        CommandSpec::Nothing
    } else if argv[0] == help_word() {
        CommandSpec::Help
    } else if argv[0] == cd_word() {
        CommandSpec::Cd(
            if argv.len() > 1 {
                Some(argv[1])
            } else {
                None
            },
        )
    } else if argv[0] == exit_word() {
        CommandSpec::Exit
    } else {
        CommandSpec::Run(argv[0], argv.drop_first())
    }
}

/// What the words `argv` ask for.
pub fn dispatch(argv: Vec<Vec<char>>) -> (c: Command)
    ensures
        command_view(c) == dispatch_spec(views(argv@)),
{
    if argv.len() == 0 {
        return Command::Nothing;
    }
    let mut argv = argv;
    let ghost all = views(argv@);
    let program = argv.remove(0);
    assert(views(argv@) =~= all.drop_first());
    let help: Vec<char> = vec!['h', 'e', 'l', 'p'];
    let cd: Vec<char> = vec!['c', 'd'];
    let exit: Vec<char> = vec!['e', 'x', 'i', 't'];
    assert(help@ =~= help_word());
    assert(cd@ =~= cd_word());
    assert(exit@ =~= exit_word());
    if chars_eq(program.as_slice(), help.as_slice()) {
        Command::Help
    } else if chars_eq(program.as_slice(), cd.as_slice()) {
        if argv.len() > 0 {
            let d = argv.remove(0);
            Command::Cd(Some(d))
        } else {
            Command::Cd(None)
        }
    } else if chars_eq(program.as_slice(), exit.as_slice()) {
        Command::Exit
    } else {
        Command::Run { program, args: argv }
    }
}

/// A redirection: `> path` (to a file) or `< path` (from a file).
pub struct Redirect {
    pub to_file: bool,
    pub path: Vec<char>,
}

pub open spec fn redirect_view(r: Redirect) -> (bool, Seq<char>) {
    (r.to_file, r.path@)
}

/// The redirections among the words `argv`, scanned from position `i` as
/// the shell scans them: a word `>` or `<` and the word after it are
/// removed and give a redirection, and the scan resumes one word further
/// on (so the word that then follows is never taken for an operator).
/// `None` when an operator is the last word, where the shell fails.
pub open spec fn redirect_scan(argv: Seq<Seq<char>>, i: int) -> Option<
    (Seq<Seq<char>>, Seq<(bool, Seq<char>)>),
>
    decreases argv.len() + 1 - i,
{
    if i < 0 || i >= argv.len() {
        Some((argv, Seq::empty()))
    } else if argv[i] == seq!['>'] || argv[i] == seq!['<'] {
        if i + 1 >= argv.len() {
            None
        } else {
            let rest = argv.subrange(0, i) + argv.subrange(i + 2, argv.len() as int);
            match redirect_scan(rest, i + 1) {
                Some((a, rs)) => Some((a, seq![(argv[i] == seq!['>'], argv[i + 1])] + rs)),
                None => None,
            }
        }
    } else {
        redirect_scan(argv, i + 1)
    }
}

/// Law: a redirection takes two words, its operator and its file, and the
/// scan loses no other word: the words left and two words per redirection
/// add up to the words scanned, and each redirection is `>` (to a file) or
/// `<` (from a file) with a file that was one of the words.
pub proof fn law_redirects_take_two_words(argv: Seq<Seq<char>>, i: int)
    ensures
        redirect_scan(argv, i) matches Some((rest, rs)) ==> rest.len() + 2 * rs.len() == argv.len()
            && forall|k: int| 0 <= k < rs.len() ==> argv.contains(#[trigger] rs[k].1),
    decreases argv.len() + 1 - i,
{
    if 0 <= i < argv.len() && (argv[i] == seq!['>'] || argv[i] == seq!['<']) && i + 1
        < argv.len() {
        let rest = argv.subrange(0, i) + argv.subrange(i + 2, argv.len() as int);
        law_redirects_take_two_words(rest, i + 1);
        if let Some((a, rs)) = redirect_scan(rest, i + 1) {
            let all = seq![(argv[i] == seq!['>'], argv[i + 1])] + rs;
            assert forall|k: int| 0 <= k < all.len() implies argv.contains(#[trigger] all[k].1) by {
                if k == 0 {
                    assert(argv[i + 1] == all[0].1);
                } else {
                    assert(all[k] == rs[k - 1]);
                    let w = choose|w: int| 0 <= w < rest.len() && rest[w] == rs[k - 1].1;
                    if w < i {
                        assert(argv[w] == rest[w]);
                    } else {
                        assert(argv[w + 2] == rest[w]);
                    }
                }
            }
        }
    } else if 0 <= i < argv.len() && !(argv[i] == seq!['>'] || argv[i] == seq!['<']) {
        law_redirects_take_two_words(argv, i + 1);
    }
}

/// A command line whose redirections each have a file.
pub open spec fn redirects_complete(cmd_line: Seq<char>) -> bool {
    redirect_scan(words(cmd_line), 0) is Some
}

/// A command of the interactive gash: its redirections, in order, and what
/// is left to run.
pub struct ParsedCommand {
    pub redirects: Vec<Redirect>,
    pub command: Command,
}

/// Scans `argv` for redirections, as `redirect_scan` says.
fn take_redirects(argv: Vec<Vec<char>>) -> (r: (Vec<Vec<char>>, Vec<Redirect>))
    requires
        redirect_scan(views(argv@), 0) is Some,
    ensures
        redirect_scan(views(argv@), 0) == Some(
            (views(r.0@), r.1@.map_values(|x: Redirect| redirect_view(x))),
        ),
{
    let ghost all = views(argv@);
    let mut argv = argv;
    let mut redirects: Vec<Redirect> = Vec::new();
    let gt: Vec<char> = vec!['>'];
    let lt: Vec<char> = vec!['<'];
    assert(gt@ =~= seq!['>']);
    assert(lt@ =~= seq!['<']);
    let mut i: usize = 0;
    while i < argv.len()
        invariant
            gt@ == seq!['>'],
            lt@ == seq!['<'],
            i <= argv@.len() + 1,
            redirect_scan(views(argv@), i as int) is Some,
            redirect_scan(all, 0) == match redirect_scan(views(argv@), i as int) {
                Some((a, rs)) => Some(
                    (a, redirects@.map_values(|x: Redirect| redirect_view(x)) + rs),
                ),
                None => None,
            },
        decreases argv@.len() + 1 - i,
    {
        let is_out = chars_eq(argv[i].as_slice(), gt.as_slice());
        let is_in = chars_eq(argv[i].as_slice(), lt.as_slice());
        assert(views(argv@)[i as int] == argv@[i as int]@);
        if is_out || is_in {
            let ghost before = views(argv@);
            let ghost rbefore = redirects@.map_values(|x: Redirect| redirect_view(x));
            argv.remove(i);
            let path = argv.remove(i);
            assert(views(argv@) =~= before.subrange(0, i as int) + before.subrange(
                i + 2,
                before.len() as int,
            ));
            let ghost tail = redirect_scan(views(argv@), i + 1);
            redirects.push(Redirect { to_file: is_out, path });
            assert(redirects@.map_values(|x: Redirect| redirect_view(x)) =~= rbefore.push(
                (is_out, path@),
            ));
            proof {
                match tail {
                    Some((a, rs)) => {
                        assert(rbefore + (seq![(is_out, path@)] + rs) =~= rbefore.push(
                            (is_out, path@),
                        ) + rs);
                    },
                    None => {},
                }
            }
            i = i + 1;
        } else {
            i = i + 1;
        }
    }
    assert(redirects@.map_values(|x: Redirect| redirect_view(x)) + Seq::empty()
        =~= redirects@.map_values(|x: Redirect| redirect_view(x)));
    (argv, redirects)
}

/// Whether each redirection of `cmd_line` has a file.
pub fn can_parse_command(cmd_line: &[char]) -> (b: bool)
    ensures
        b == redirects_complete(cmd_line@),
{
    let argv = split_args(cmd_line);
    let gt: Vec<char> = vec!['>'];
    let lt: Vec<char> = vec!['<'];
    assert(gt@ =~= seq!['>']);
    assert(lt@ =~= seq!['<']);
    let ghost all = views(argv@);
    let mut cur = argv;
    let mut i: usize = 0;
    while i < cur.len()
        invariant
            gt@ == seq!['>'],
            lt@ == seq!['<'],
            i <= cur@.len() + 1,
            all == words(cmd_line@),
            (redirect_scan(all, 0) is Some) == (redirect_scan(views(cur@), i as int) is Some),
        decreases cur@.len() + 1 - i,
    {
        let is_out = chars_eq(cur[i].as_slice(), gt.as_slice());
        let is_in = chars_eq(cur[i].as_slice(), lt.as_slice());
        assert(views(cur@)[i as int] == cur@[i as int]@);
        if is_out || is_in {
            if i + 1 >= cur.len() {
                assert(redirect_scan(views(cur@), i as int) is None);
                return false;
            }
            let ghost before = views(cur@);
            cur.remove(i);
            cur.remove(i);
            assert(views(cur@) =~= before.subrange(0, i as int) + before.subrange(
                i + 2,
                before.len() as int,
            ));
        }
        i = i + 1;
    }
    true
}

/// What the parsed command means, as views.
pub open spec fn parse_command_spec(cmd_line: Seq<char>) -> (Seq<(bool, Seq<char>)>, CommandSpec) {
    let (rest, rs) = redirect_scan(words(cmd_line), 0)->0;
    (rs, dispatch_spec(rest))
}

/// A command of the interactive gash: its words, less its redirections,
/// give a built-in command or a program to run.
pub fn parse_command(cmd_line: &[char]) -> (r: ParsedCommand)
    requires
        redirects_complete(cmd_line@),
    ensures
        (r.redirects@.map_values(|x: Redirect| redirect_view(x)), command_view(r.command))
            == parse_command_spec(cmd_line@),
{
    let argv = split_args(cmd_line);
    let (rest, redirects) = take_redirects(argv);
    let command = dispatch(rest);
    ParsedCommand { redirects, command }
}

/// What the shell does with a line.
pub enum ShellAction {
    /// Nothing (an empty line).
    Nothing,
    /// Leave the shell.
    Exit,
    /// Print these lines of history.
    PrintHistory(Vec<Vec<char>>),
    /// Run `program` with `args` (if the program exists).
    Run { program: Vec<char>, args: Vec<Vec<char>> },
    /// Run the command line `cmd_line`, its last stage in the background when
    /// `background` is set.
    RunLine { cmd_line: Vec<char>, background: bool },
}

/// The views of what the shell does.
pub enum ShellActionSpec {
    Nothing,
    Exit,
    PrintHistory(Seq<Seq<char>>),
    Run(Seq<char>, Seq<Seq<char>>),
    RunLine(Seq<char>, bool),
}

pub open spec fn action_view(a: ShellAction) -> ShellActionSpec {
    match a {
        ShellAction::Nothing => ShellActionSpec::Nothing,
        ShellAction::Exit => ShellActionSpec::Exit,
        ShellAction::PrintHistory(lines) => ShellActionSpec::PrintHistory(views(lines@)),
        ShellAction::Run { program, args } => ShellActionSpec::Run(program@, views(args@)),
        ShellAction::RunLine { cmd_line, background } => ShellActionSpec::RunLine(
            cmd_line@,
            background,
        ),
    }
}

/// The line of history for the `i`-th command (counted from 0): its number
/// from 1, a space, and the command.
pub open spec fn history_line(i: nat, cmd: Seq<char>) -> Seq<char> {
    decimal_chars(i + 1) + seq![' '] + cmd
}

/// The lines that print `history`.
pub open spec fn history_lines(history: Seq<Seq<char>>) -> Seq<Seq<char>> {
    Seq::new(history.len(), |i: int| history_line(i as nat, history[i]))
}

/// `history` after a command line: the trimmed line is kept if it is not
/// empty.
pub open spec fn record(history: Seq<Seq<char>>, line: Seq<char>) -> Seq<Seq<char>> {
    if trim_spec(line).len() > 0 {
        history.push(trim_spec(line))
    } else {
        history
    }
}

/// What the starting shell does with a line, given the history that
/// includes it: `exit`, `history`, or a program to run.
pub open spec fn step_spec(history: Seq<Seq<char>>, line: Seq<char>) -> ShellActionSpec {
    let argv = words(trim_spec(line));
    if argv.len() == 0 {
        ShellActionSpec::Nothing
    } else if argv[0] == exit_word() {
        ShellActionSpec::Exit
    } else if argv[0] == history_word() {
        ShellActionSpec::PrintHistory(history_lines(history))
    } else {
        ShellActionSpec::Run(argv[0], argv.drop_first())
    }
}

/// The command line left when a trailing `&` asks for the background:
/// every trailing `&` goes.
pub open spec fn background_spec(line: Seq<char>) -> (Seq<char>, bool) {
    if line.len() > 0 && line.last() == '&' {
        (trim_end_by(line, |x: char| x == '&'), true)
    } else {
        (line, false)
    }
}

/// What the interactive gash does with a line, given the history that
/// includes it: after a trailing `&` is taken off, `exit` and `history`
/// are its own, any other line is run as a pipeline.
pub open spec fn step_line_spec(history: Seq<Seq<char>>, line: Seq<char>) -> ShellActionSpec {
    let (cmd, bg) = background_spec(trim_spec(line));
    if cmd == exit_word() {
        ShellActionSpec::Exit
    } else if cmd == history_word() {
        ShellActionSpec::PrintHistory(history_lines(history))
    } else {
        ShellActionSpec::RunLine(cmd, bg)
    }
}

/// The first position of `c` in `s`, if any.
pub open spec fn first_char_index(s: Seq<char>, c: char) -> Option<int> {
    if exists|i: int| 0 <= i < s.len() && s[i] == c {
        Some(choose|i: int| 0 <= i < s.len() && s[i] == c && forall|j: int| 0 <= j < i ==> s[j] != c)
    } else {
        None
    }
}

/// A line of the first gash, cut at its first `&`: what comes before it,
/// and whether there was one (asking for the background).
pub fn cut_at_ampersand(line: &[char]) -> (r: (Vec<char>, bool))
    ensures
        match first_char_index(line@, '&') {
            Some(p) => r.0@ == line@.subrange(0, p) && r.1,
            None => r.0@ == line@ && !r.1,
        },
{
    let mut i: usize = 0;
    while i < line.len()
        invariant
            i <= line@.len(),
            forall|j: int| 0 <= j < i ==> line@[j] != '&',
        decreases line@.len() - i,
    {
        if line[i] == '&' {
            proof {
                let p = choose|k: int|
                    0 <= k < line@.len() && line@[k] == '&' && forall|j: int|
                        0 <= j < k ==> line@[j] != '&';
                assert(line@[i as int] == '&' && forall|j: int| 0 <= j < i ==> line@[j] != '&');
                if p < i {
                } else if p > i {
                    assert(line@[i as int] != '&');
                }
            }
            return (copy_chars(line, 0, i), true);
        }
        i = i + 1;
    }
    assert(line@.subrange(0, line@.len() as int) =~= line@);
    (copy_chars(line, 0, line.len()), false)
}

/// A shell: its history and its prompt.
pub struct Shell {
    history: Vec<Vec<char>>,
    cmd_prompt: Vec<char>,
}

impl Shell {
    /// The command lines kept, oldest first.
    pub closed spec fn history(&self) -> Seq<Seq<char>> {
        views(self.history@)
    }

    /// The prompt.
    pub closed spec fn prompt(&self) -> Seq<char> {
        self.cmd_prompt@
    }

    /// A shell with the prompt `prompt_str` and no history.
    pub fn new(prompt_str: &[char]) -> (s: Shell)
        ensures
            s.history() == Seq::<Seq<char>>::empty(),
            s.prompt() == prompt_str@,
    {
        let s = Shell { history: Vec::new(), cmd_prompt: copy_chars(prompt_str, 0, prompt_str.len()) };
        assert(prompt_str@.subrange(0, prompt_str@.len() as int) =~= prompt_str@);
        assert(s.history() =~= Seq::<Seq<char>>::empty());
        s
    }

    /// The prompt.
    pub fn cmd_prompt(&self) -> (r: &Vec<char>)
        ensures
            r@ == self.prompt(),
    {
        &self.cmd_prompt
    }

    /// The lines that print the history.
    pub fn history_lines(&self) -> (r: Vec<Vec<char>>)
        ensures
            views(r@) == history_lines(self.history()),
    {
        let mut r: Vec<Vec<char>> = Vec::new();
        let mut i: usize = 0;
        while i < self.history.len()
            invariant
                i <= self.history@.len(),
                r@.len() == i,
                forall|j: int|
                    0 <= j < i ==> (#[trigger] r@[j])@ == history_line(
                        j as nat,
                        self.history@[j]@,
                    ),
            decreases self.history@.len() - i,
        {
            let mut line: Vec<char> = Vec::new();
            push_decimal_chars(&mut line, i + 1);
            line.push(' ');
            append_chars(&mut line, self.history[i].as_slice());
            assert(line@ =~= history_line(i as nat, self.history@[i as int]@));
            r.push(line);
            i = i + 1;
        }
        assert(views(r@) =~= history_lines(self.history()));
        r
    }

    /// Keeps the trimmed line in the history if it is not empty, and gives it.
    fn record_line(&mut self, line: &[char]) -> (t: Vec<char>)
        ensures
            t@ == trim_spec(line@),
            final(self).history() == record(old(self).history(), line@),
            final(self).prompt() == old(self).prompt(),
    {
        let t = trim(line);
        if t.len() > 0 {
            let kept = copy_chars(t.as_slice(), 0, t.len());
            assert(kept@ =~= t@);
            self.history.push(kept);
            assert(self.history() =~= old(self).history().push(t@));
        }
        t
    }

    /// Handles a line as the starting shell does: the trimmed line is kept
    /// in the history if not empty; `exit` leaves, `history` prints the
    /// history, any other program is run with its arguments.
    pub fn step(&mut self, line: &[char]) -> (a: ShellAction)
        ensures
            final(self).history() == record(old(self).history(), line@),
            final(self).prompt() == old(self).prompt(),
            action_view(a) == step_spec(final(self).history(), line@),
    {
        let cmd_line = self.record_line(line);
        let mut argv = split_args(cmd_line.as_slice());
        if argv.len() == 0 {
            return ShellAction::Nothing;
        }
        let ghost all = views(argv@);
        let program = argv.remove(0);
        assert(views(argv@) =~= all.drop_first());
        let exit: Vec<char> = vec!['e', 'x', 'i', 't'];
        let history: Vec<char> = vec!['h', 'i', 's', 't', 'o', 'r', 'y'];
        assert(exit@ =~= exit_word());
        assert(history@ =~= history_word());
        if chars_eq(program.as_slice(), exit.as_slice()) {
            ShellAction::Exit
        } else if chars_eq(program.as_slice(), history.as_slice()) {
            ShellAction::PrintHistory(self.history_lines())
        } else {
            ShellAction::Run { program, args: argv }
        }
    }

    /// Handles a line as the interactive gash does: the trimmed line is kept
    /// in the history if not empty, a trailing `&` asks for the background,
    /// `exit` leaves, `history` prints the history, and any other line is
    /// run as a pipeline.
    pub fn step_line(&mut self, line: &[char]) -> (a: ShellAction)
        ensures
            final(self).history() == record(old(self).history(), line@),
            final(self).prompt() == old(self).prompt(),
            action_view(a) == step_line_spec(final(self).history(), line@),
    {
        let trimmed = self.record_line(line);
        let (cmd_line, background) = if trimmed.len() > 0 && trimmed[trimmed.len() - 1] == '&' {
            (trim_end_char(trimmed.as_slice(), '&'), true)
        } else {
            (trimmed, false)
        };
        let exit: Vec<char> = vec!['e', 'x', 'i', 't'];
        let history: Vec<char> = vec!['h', 'i', 's', 't', 'o', 'r', 'y'];
        assert(exit@ =~= exit_word());
        assert(history@ =~= history_word());
        if chars_eq(cmd_line.as_slice(), exit.as_slice()) {
            ShellAction::Exit
        } else if chars_eq(cmd_line.as_slice(), history.as_slice()) {
            ShellAction::PrintHistory(self.history_lines())
        } else {
            ShellAction::RunLine { cmd_line, background }
        }
    }
}

} // verus!
