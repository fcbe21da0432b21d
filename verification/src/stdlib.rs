//! What the checker knows of common commands: how destructive they are and
//! what effects they have.
use vstd::prelude::*;
use crate::text::str_eq;

verus! {

/// How much harm a command can do, from least to most.
#[derive(Debug, Clone, Copy, PartialEq, Eq, PartialOrd, Ord, Hash, Structural)]
pub enum Destructiveness {
    ReadOnly,
    Modifying,
    Destructive,
    SystemAltering,
}

/// The rank of a level, 0 for `ReadOnly` up to 3 for `SystemAltering`: the
/// order that `<` on the type follows.
pub open spec fn destructiveness_rank(d: Destructiveness) -> nat {
    match d {
        Destructiveness::ReadOnly => 0,
        Destructiveness::Modifying => 1,
        Destructiveness::Destructive => 2,
        Destructiveness::SystemAltering => 3,
    }
}

impl Destructiveness {
    /// The rank of the level, as `destructiveness_rank` states.
    pub fn rank(&self) -> (r: u8)
        ensures
            r as nat == destructiveness_rank(*self),
    {
        match self {
            Destructiveness::ReadOnly => 0,
            Destructiveness::Modifying => 1,
            Destructiveness::Destructive => 2,
            Destructiveness::SystemAltering => 3,
        }
    }

    /// Whether `self` is at least as harmful as `other`.
    pub fn at_least(&self, other: &Destructiveness) -> (b: bool)
        ensures
            b == (destructiveness_rank(*self) >= destructiveness_rank(*other)),
    {
        self.rank() >= other.rank()
    }
}

#[derive(Debug, Clone, Copy, PartialEq, Eq, Structural)]
#[non_exhaustive]
pub enum CommandEffect {
    ReadsFs,
    WritesFs,
    ChangesCwd,
    MayExec,
    Network,
    MutatesEnv,
    MayExit,
}

#[derive(Debug, Clone, Copy)]
pub struct KnownFlag {
    pub short: Option<&'static str>,
    pub long: Option<&'static str>,
    pub description: &'static str,
}

#[derive(Debug, Clone)]
pub struct CommandSig {
    pub name: &'static str,
    pub destructiveness: Destructiveness,
    pub effects: Vec<CommandEffect>,
    pub description: &'static str,
    pub known_flags: Vec<KnownFlag>,
}

/// The `i`-th command of the table.
pub open spec fn command_name(i: int) -> Seq<char> {
    if i == 0 { "echo"@ }
    else if i == 1 { "printf"@ }
    else if i == 2 { "cat"@ }
    else if i == 3 { "grep"@ }
    else if i == 4 { "test"@ }
    else if i == 5 { "mkdir"@ }
    else if i == 6 { "chmod"@ }
    else if i == 7 { "tee"@ }
    else if i == 8 { "cp"@ }
    else if i == 9 { "cd"@ }
    else if i == 10 { "curl"@ }
    else if i == 11 { "rm"@ }
    else if i == 12 { "mv"@ }
    else if i == 13 { "git"@ }
    else if i == 14 { "docker"@ }
    else { "kubectl"@ }
}

/// The commands of the table, in order.
pub open spec fn command_names() -> Seq<Seq<char>> {
    Seq::new(16, |i: int| command_name(i))
}

/// How destructive the `i`-th command is.
pub open spec fn destructiveness_at(i: int) -> Destructiveness {
    if i <= 4 {
        Destructiveness::ReadOnly
    } else if i <= 10 || i == 13 {
        Destructiveness::Modifying
    } else if i <= 12 {
        Destructiveness::Destructive
    } else {
        Destructiveness::SystemAltering
    }
}

/// The effects of the `i`-th command, in the table's order.
pub open spec fn effects_at(i: int) -> Seq<CommandEffect> {
    if i <= 1 {
        Seq::empty()
    } else if i <= 4 {
        seq![CommandEffect::ReadsFs]
    } else if i <= 7 || i == 11 {
        seq![CommandEffect::WritesFs]
    } else if i == 8 || i == 12 {
        seq![CommandEffect::ReadsFs, CommandEffect::WritesFs]
    } else if i == 9 {
        seq![CommandEffect::ChangesCwd]
    } else if i == 10 {
        seq![CommandEffect::Network]
    } else if i == 13 {
        seq![CommandEffect::ReadsFs, CommandEffect::WritesFs, CommandEffect::Network, CommandEffect::MayExec]
    } else {
        seq![CommandEffect::Network, CommandEffect::MayExec]
    }
}

/// The short and long spellings of the flags known for the `i`-th command.
pub open spec fn flags_at(i: int) -> Seq<(Option<Seq<char>>, Option<Seq<char>>)> {
    if i == 6 {
        seq![(Some("-R"@), Some("--recursive"@))]
    } else if i == 8 {
        seq![(Some("-r"@), Some("--recursive"@))]
    } else if i == 11 {
        seq![(Some("-r"@), Some("--recursive"@)), (Some("-f"@), Some("--force"@)), (Some("-i"@), None)]
    } else if i == 12 {
        seq![(Some("-f"@), Some("--force"@)), (Some("-i"@), Some("--interactive"@))]
    } else {
        Seq::empty()
    }
}

/// The description of the `i`-th command.
pub open spec fn description_at(i: int) -> Seq<char> {
    if i == 0 { "Write arguments to standard output"@ }
    else if i == 1 { "Format and print data"@ }
    else if i == 2 { "Concatenate and print files"@ }
    else if i == 3 { "Search files for patterns"@ }
    else if i == 4 { "Evaluate conditional expressions"@ }
    else if i == 5 { "Create directories"@ }
    else if i == 6 { "Change file mode bits"@ }
    else if i == 7 { "Read from stdin and write to stdout and files"@ }
    else if i == 8 { "Copy files and directories"@ }
    else if i == 9 { "Change the working directory"@ }
    else if i == 10 { "Transfer data from or to a server"@ }
    else if i == 11 { "Remove files or directories"@ }
    else if i == 12 { "Move or rename files"@ }
    else if i == 13 { "Distributed version control system"@ }
    else if i == 14 { "Container runtime"@ }
    else { "Kubernetes command-line tool"@ }
}

/// The descriptions of the flags known for the `i`-th command.
pub open spec fn flag_descriptions_at(i: int) -> Seq<Seq<char>> {
    if i == 6 {
        seq!["Change files and directories recursively"@]
    } else if i == 8 {
        seq!["Copy directories recursively"@]
    } else if i == 11 {
        seq![
            "Remove directories and their contents recursively"@,
            "Ignore nonexistent files, never prompt"@,
            "Prompt before every removal"@,
        ]
    } else if i == 12 {
        seq!["Do not prompt before overwriting"@, "Prompt before overwriting"@]
    } else {
        Seq::empty()
    }
}

pub open spec fn flag_descriptions(f: Seq<KnownFlag>) -> Seq<Seq<char>> {
    Seq::new(f.len(), |i: int| f[i].description@)
}

pub open spec fn opt_str_view(o: Option<&str>) -> Option<Seq<char>> {
    match o {
        Some(s) => Some(s@),
        None => None,
    }
}

pub open spec fn flags_view(f: Seq<KnownFlag>) -> Seq<(Option<Seq<char>>, Option<Seq<char>>)> {
    Seq::new(f.len(), |i: int| (opt_str_view(f[i].short), opt_str_view(f[i].long)))
}

/// A signature is the `i`-th entry of the table.
pub open spec fn sig_matches(c: CommandSig, i: int) -> bool {
    &&& c.name@ == command_name(i)
    &&& c.destructiveness == destructiveness_at(i)
    &&& c.effects@ == effects_at(i)
    &&& flags_view(c.known_flags@) == flags_at(i)
    &&& c.description@ == description_at(i)
    &&& flag_descriptions(c.known_flags@) == flag_descriptions_at(i)
}

fn flag(short: Option<&'static str>, long: Option<&'static str>, description: &'static str) -> (f: KnownFlag)
    ensures
        f.short == short,
        f.long == long,
        f.description == description,
{
    KnownFlag { short, long, description }
}

fn sig(
    name: &'static str,
    destructiveness: Destructiveness,
    effects: Vec<CommandEffect>,
    description: &'static str,
    known_flags: Vec<KnownFlag>,
) -> (c: CommandSig)
    ensures
        c.name == name,
        c.destructiveness == destructiveness,
        c.effects@ == effects@,
        c.description == description,
        c.known_flags@ == known_flags@,
{
    CommandSig { name, destructiveness, effects, description, known_flags }
}

fn vec1<T>(a: T) -> (v: Vec<T>)
    ensures
        v@ == seq![a],
{
    let mut v: Vec<T> = Vec::new();
    v.push(a);
    assert(v@ =~= seq![a]);
    v
}

fn vec2<T>(a: T, b: T) -> (v: Vec<T>)
    ensures
        v@ == seq![a, b],
{
    let mut v: Vec<T> = Vec::new();
    v.push(a);
    v.push(b);
    assert(v@ =~= seq![a, b]);
    v
}

fn vec3<T>(a: T, b: T, c: T) -> (v: Vec<T>)
    ensures
        v@ == seq![a, b, c],
{
    let mut v: Vec<T> = Vec::new();
    v.push(a);
    v.push(b);
    v.push(c);
    assert(v@ =~= seq![a, b, c]);
    v
}

fn vec4<T>(a: T, b: T, c: T, d: T) -> (v: Vec<T>)
    ensures
        v@ == seq![a, b, c, d],
{
    let mut v: Vec<T> = Vec::new();
    v.push(a);
    v.push(b);
    v.push(c);
    v.push(d);
    assert(v@ =~= seq![a, b, c, d]);
    v
}

/// The signature of the `i`-th command of the table.
fn command_at(i: usize) -> (c: CommandSig)
    requires
        i < 16,
    ensures
        sig_matches(c, i as int),
{
    let c = if i == 0 {
        sig("echo", Destructiveness::ReadOnly, Vec::new(), "Write arguments to standard output", Vec::new())
    } else if i == 1 {
        sig("printf", Destructiveness::ReadOnly, Vec::new(), "Format and print data", Vec::new())
    } else if i == 2 {
        sig("cat", Destructiveness::ReadOnly, vec1(CommandEffect::ReadsFs), "Concatenate and print files", Vec::new())
    } else if i == 3 {
        sig("grep", Destructiveness::ReadOnly, vec1(CommandEffect::ReadsFs), "Search files for patterns", Vec::new())
    } else if i == 4 {
        sig("test", Destructiveness::ReadOnly, vec1(CommandEffect::ReadsFs), "Evaluate conditional expressions", Vec::new())
    } else if i == 5 {
        sig("mkdir", Destructiveness::Modifying, vec1(CommandEffect::WritesFs), "Create directories", Vec::new())
    } else if i == 6 {
        sig(
            "chmod",
            Destructiveness::Modifying,
            vec1(CommandEffect::WritesFs),
            "Change file mode bits",
            vec1(flag(Some("-R"), Some("--recursive"), "Change files and directories recursively")),
        )
    } else if i == 7 {
        sig(
            "tee",
            Destructiveness::Modifying,
            vec1(CommandEffect::WritesFs),
            "Read from stdin and write to stdout and files",
            Vec::new(),
        )
    } else if i == 8 {
        sig(
            "cp",
            Destructiveness::Modifying,
            vec2(CommandEffect::ReadsFs, CommandEffect::WritesFs),
            "Copy files and directories",
            vec1(flag(Some("-r"), Some("--recursive"), "Copy directories recursively")),
        )
    } else if i == 9 {
        sig("cd", Destructiveness::Modifying, vec1(CommandEffect::ChangesCwd), "Change the working directory", Vec::new())
    } else if i == 10 {
        sig("curl", Destructiveness::Modifying, vec1(CommandEffect::Network), "Transfer data from or to a server", Vec::new())
    } else if i == 11 {
        sig(
            "rm",
            Destructiveness::Destructive,
            vec1(CommandEffect::WritesFs),
            "Remove files or directories",
            vec3(flag(Some("-r"), Some("--recursive"), "Remove directories and their contents recursively"), flag(Some("-f"), Some("--force"), "Ignore nonexistent files, never prompt"), flag(Some("-i"), None, "Prompt before every removal")),
        )
    } else if i == 12 {
        sig(
            "mv",
            Destructiveness::Destructive,
            vec2(CommandEffect::ReadsFs, CommandEffect::WritesFs),
            "Move or rename files",
            vec2(flag(Some("-f"), Some("--force"), "Do not prompt before overwriting"), flag(Some("-i"), Some("--interactive"), "Prompt before overwriting")),
        )
    } else if i == 13 {
        sig(
            "git",
            Destructiveness::Modifying,
            vec4(CommandEffect::ReadsFs, CommandEffect::WritesFs, CommandEffect::Network, CommandEffect::MayExec),
            "Distributed version control system",
            Vec::new(),
        )
    } else if i == 14 {
        sig(
            "docker",
            Destructiveness::SystemAltering,
            vec2(CommandEffect::Network, CommandEffect::MayExec),
            "Container runtime",
            Vec::new(),
        )
    } else {
        sig(
            "kubectl",
            Destructiveness::SystemAltering,
            vec2(CommandEffect::Network, CommandEffect::MayExec),
            "Kubernetes command-line tool",
            Vec::new(),
        )
    };
    assert(flags_view(c.known_flags@) =~= flags_at(i as int));
    assert(flag_descriptions(c.known_flags@) =~= flag_descriptions_at(i as int));
    assert(c.effects@ =~= effects_at(i as int));
    c
}

/// The whole table, in order: one signature per name of `command_names`.
pub fn all_commands() -> (r: Vec<CommandSig>)
    ensures
        r@.len() == command_names().len(),
        forall|i: int| 0 <= i < r@.len() ==> sig_matches(#[trigger] r@[i], i),
{
    let mut r: Vec<CommandSig> = Vec::new();
    let mut i: usize = 0;
    while i < 16
        invariant
            i <= 16,
            r@.len() == i,
            forall|j: int| 0 <= j < i ==> sig_matches(#[trigger] r@[j], j),
        decreases 16 - i,
    {
        r.push(command_at(i));
        i = i + 1;
    }
    r
}

/// The signature of a command the table knows, `None` for any other name.
/// No two entries of the table have the same name, so the entry that
/// `lookup_command` finds is the only one of that name.
pub proof fn lemma_command_names_distinct(i: int, j: int)
    requires
        0 <= i < j < 16,
    ensures
        command_name(i) != command_name(j),
{
    reveal_strlit("echo");
    reveal_strlit("printf");
    reveal_strlit("cat");
    reveal_strlit("grep");
    reveal_strlit("test");
    reveal_strlit("mkdir");
    reveal_strlit("chmod");
    reveal_strlit("tee");
    reveal_strlit("cp");
    reveal_strlit("cd");
    reveal_strlit("curl");
    reveal_strlit("rm");
    reveal_strlit("mv");
    reveal_strlit("git");
    reveal_strlit("docker");
    reveal_strlit("kubectl");
    let a = command_name(i);
    let b = command_name(j);
    if a.len() == b.len() {
        assert(a[0] != b[0] || a[1] != b[1]);
    }
}

pub fn lookup_command(name: &str) -> (r: Option<CommandSig>)
    ensures
        r is Some <==> command_names().contains(name@),
        r matches Some(c) ==> c.name@ == name@ && exists|i: int|
            0 <= i < 16 && #[trigger] sig_matches(c, i) && forall|k: int| 0 <= k < i ==> command_name(k) != name@,
{
    let mut i: usize = 0;
    while i < 16
        invariant
            i <= 16,
            forall|j: int| 0 <= j < i ==> command_name(j) != name@,
        decreases 16 - i,
    {
        let c = command_at(i);
        if str_eq(c.name, name) {
            assert(command_names()[i as int] == name@);
            assert(sig_matches(c, i as int));
            return Some(c);
        }
        i = i + 1;
    }
    proof {
        if command_names().contains(name@) {
            let k = choose|k: int| 0 <= k < 16 && command_names()[k] == name@;
            assert(command_name(k) != name@);
        }
    }
    None
}

} // verus!
