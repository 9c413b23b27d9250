//! `rasc skill`: the bundled rasc skill for coding agents, and where it goes.
//!
//! The skill is a single `SKILL.md` in the Agent Skills layout
//! (`<skills-dir>/<name>/SKILL.md`), embedded in the binary so a release build can set up an
//! agent without a checkout. Installing is a plain file write rather than a call into the
//! agents' own tooling, and each target is the user-level directory that agent documents:
//!
//! | Agent | User-level skills directory |
//! |---|---|
//! | pi | `~/.pi/agent/skills` |
//! | Codex | `$CODEX_HOME/skills`, else `~/.codex/skills` |
//! | the agent the host names | `~/.<name>/skills` |
//! | cross-agent | `~/.agents/skills` |
use crate::error::Error;
use crate::seqs::occurs_at;
use crate::text::{chars_of, same_text};
use vstd::prelude::*;

verus! {

/// The frontmatter `name` and directory name of the installed skill.
pub const SKILL_NAME: &'static str = "rasc";

/// The skill up to the agent that the host names, which [`skill_text`] puts in.
pub const SKILL_MD: &'static str = r#"---
name: rasc
description: Analyze APK and DEX files with the rasc CLI - decompile one class, find code references (string, type, method, field), list classes, or decode AndroidManifest.xml. Use for Android reverse engineering, for locating a class or a caller inside an APK, or when a task mentions rasc, ASC, jadx, androguard, dex or smali.
---

# rasc

Fast native CLI for APK/DEX analysis, a re-implementation of ASC. Every command writes its
payload to stdout and diagnostics to stderr, so results pipe cleanly into `grep`, `awk` or
`-o FILE`.

## Commands

```sh
rasc getclass app.apk com.example.Main                # one class -> Java-like source
rasc getclass --members app.apk com.example.Main      # the same, prefixed by its member indices
rasc findrefs app.apk string Authorization            # references in every root DEX
rasc findrefs app.apk type Gson
rasc findrefs app.apk method onCreate --class com.example.Main
rasc findrefs app.apk field INSTANCE --class example --fuzzy-class
rasc classes app.apk [-f substring]                   # class index
rasc manifest app.apk                                 # binary AndroidManifest.xml -> XML
rasc fields-plan app.apk --descriptor 'Lcom/example/Foo;'      # field layout + instance reference mask
rasc field-by-index app.apk --descriptor 'Lcom/example/Foo;' --field-index 3
rasc method-by-index app.apk --descriptor 'Lcom/example/Foo;' --method-index 339
```

## Indices a runtime trace hands back

A trace from a runtime carries indices, not names. These three commands turn one into the
member behind it:

```sh
rasc fields-plan app.apk --descriptor 'Lcom/example/Foo;'
rasc field-by-index app.apk --descriptor 'Lcom/example/Foo;' --field-index 3
rasc method-by-index app.apk --descriptor 'Lcom/example/Foo;' --method-index 339
```

- `fields-plan` prints one JSON record: `dex_class_def_idx`, `dex_type_idx`,
  `class_access_flags`, the instance and static fields in DEX declaration order, and
  `instance_ref_mask` (bit *j* = instance field *j* is a reference). It is the one command
  whose consumer is a program, which is why it is JSON.
- `getclass --members` prefixes the source with one line per member, so a runtime index can be
  matched to the member in the source in the same call:
  `# members fields: field_ids=175 slot=0 static=false flags=0x12 type=[Ljava/lang/String; name=mArgs`
  and `# members methods: method_ids=339 proto=(…)V flags=0x10001 name=<init>`. The prototype is
  what identifies one method among overloads, and on an obfuscated build the name is no help at
  all. Without the flag the output is byte-for-byte what it has always been.
- `field-by-index` takes the index a runtime reports: instance fields first, then statics.
  That is **not** the `field_ids` index, so the row prints `field_ids=` too.
  `method-by-index` takes the `method_ids` index, which is what a runtime stores.
- Exit status is the verdict for all three: `0` one answer, `3` none (no input defines the
  class, or it declares no such index), `4` more than one input defines the class. On `4` the
  index lookups print every candidate, and `fields-plan` prints nothing: a plan decides which
  instance slots a collector may dereference, so picking one of two layouts would be arbitrary.

## Notes

- `getclass` accepts a dotted name or a Dalvik descriptor (`Lcom/example/Main;`); a class
  that does not exist is an error (exit 1), not empty output.
- `findrefs` queries are literal, not regex. Rows: `classesN.dex | referencing member | matched=(referenced targets)`.
- `classes` rows: `dex | descriptor | dotted name | package=... | class=...`. The full index
  is tens of MiB, so filter it (`-f`) or pipe it.
- `-o FILE` writes exactly the stdout bytes; `--threads N` caps parallelism (default: one
  worker per CPU); `--debug` prints timings to stderr.
- Update this skill with `rasc skill` (pi, Codex, "#;

/// What the skill says behind the agent that the host names.
pub const SKILL_END: &'static str = " Code; `--print` for anything else).\n";

/// A character in upper case, if it is an ASCII letter.
pub open spec fn upper_char(c: char) -> char {
    if 'a' <= c && c <= 'z' {
        (c as u32 - 0x20) as char
    } else {
        c
    }
}

/// A name with its first character in upper case, as far as that is an ASCII letter.
pub open spec fn titled(name: Seq<char>) -> Seq<char> {
    if name.len() == 0 {
        name
    } else {
        seq![upper_char(name[0])] + name.skip(1)
    }
}

/// The whole skill, where the host states the name of one agent.
pub open spec fn skill_of(claude: Seq<char>) -> Seq<char> {
    SKILL_MD@ + titled(claude) + SKILL_END@
}

/// The whole skill, where the host states the name of one agent.
///
/// `--print` emits exactly these bytes, which is what makes that flag useful for agents this
/// command does not know about.
pub fn skill_text(claude: &str) -> (text: String)
    ensures
        text@ == skill_of(claude@),
{
    let mut text = String::new();
    text.push_str(SKILL_MD);
    let chars = chars_of(claude);
    let ghost before = text@;
    for k in 0..chars.len()
        invariant
            chars@ == claude@,
            text@ == before + titled(claude@).take(k as int),
    {
        let c: char = chars[k];
        if k == 0 && 'a' <= c && c <= 'z' {
            text.push((c as u8 - 0x20) as char);
        } else {
            text.push(c);
        }
        assert(titled(claude@).take(k + 1) =~= titled(claude@).take(k as int).push(
            titled(claude@)[k as int],
        ));
    }
    assert(titled(claude@).take(claude@.len() as int) =~= titled(claude@));
    text.push_str(SKILL_END);
    assert(text@ =~= skill_of(claude@));
    text
}

/// An agent whose skill directory `rasc skill` knows how to write.
#[derive(Clone, Copy, Debug, PartialEq, Eq, Structural)]
pub enum Agent {
    Pi,
    Codex,
    /// The agent whose name the host states.
    Claude,
    /// The cross-agent `.agents/skills/` convention from the Agent Skills specification.
    Agents,
}

/// Every agent, in the order `all` installs them.
pub open spec fn all_agents() -> Seq<Agent> {
    seq![Agent::Pi, Agent::Codex, Agent::Claude, Agent::Agents]
}

/// A character in lower case, if it is an ASCII letter.
pub open spec fn lower_char(c: char) -> char {
    if 'A' <= c && c <= 'Z' {
        (c as u32 + 0x20) as char
    } else {
        c
    }
}

/// A text in lower case, as far as its characters are ASCII letters.
pub open spec fn lower_text(text: Seq<char>) -> Seq<char> {
    text.map_values(|c: char| lower_char(c))
}

/// The agents that a name in lower case stands for, where the host states the name of one agent.
/// The name with `-code` behind it stands for that agent too.
pub open spec fn expanded(name: Seq<char>, claude: Seq<char>) -> Option<Seq<Agent>> {
    if name == "pi"@ {
        Some(seq![Agent::Pi])
    } else if name == "codex"@ {
        Some(seq![Agent::Codex])
    } else if name == "agents"@ {
        Some(seq![Agent::Agents])
    } else if name == "all"@ {
        Some(all_agents())
    } else if name == claude || name == claude + "-code"@ {
        Some(seq![Agent::Claude])
    } else {
        None
    }
}

/// `selected`, and behind it those of `more` that are not in it yet.
pub open spec fn extended(selected: Seq<Agent>, more: Seq<Agent>) -> Seq<Agent>
    decreases more.len(),
{
    if more.len() == 0 {
        selected
    } else {
        let front = extended(selected, more.drop_last());
        if front.contains(more.last()) {
            front
        } else {
            front.push(more.last())
        }
    }
}

/// The text of a list of names.
pub open spec fn name_texts(names: Seq<String>) -> Seq<Seq<char>> {
    names.map_values(|name: String| name@)
}

/// What the agent arguments come to: the agents they stand for, each once and in the order they
/// are first named, or the first name that stands for none.
pub open spec fn selection_of(names: Seq<Seq<char>>, claude: Seq<char>) -> Result<
    Seq<Agent>,
    Seq<char>,
>
    decreases names.len(),
{
    if names.len() == 0 {
        Ok(Seq::empty())
    } else {
        match selection_of(names.drop_last(), claude) {
            Err(name) => Err(name),
            Ok(selected) => match expanded(lower_text(names.last()), claude) {
                Some(more) => Ok(extended(selected, more)),
                None => Err(lower_text(names.last())),
            },
        }
    }
}

/// Where a path and a relative part lead.
pub open spec fn path_join(base: Seq<char>, part: Seq<char>) -> Seq<char> {
    if base.len() == 0 {
        part
    } else if base.last() == '/' {
        base + part
    } else {
        base + "/"@ + part
    }
}

/// Joins a relative part to a path.
fn join(base: &str, part: &str) -> (path: String)
    ensures
        path@ == path_join(base@, part@),
{
    let chars = chars_of(base);
    let len: usize = chars.len();
    let mut path = base.to_owned();
    if len > 0 && chars[len - 1] != '/' {
        path.push_str("/");
    }
    path.push_str(part);
    assert(len == 0 ==> path@ =~= part@);
    path
}

/// The user-level skills directory that an agent scans.
pub open spec fn skills_dir_of(
    agent: Agent,
    home: Seq<char>,
    codex_home: Seq<char>,
    claude: Seq<char>,
) -> Seq<char> {
    match agent {
        Agent::Pi => path_join(home, ".pi/agent/skills"@),
        Agent::Codex => path_join(codex_home, "skills"@),
        Agent::Claude => path_join(home, "."@ + claude + "/skills"@),
        Agent::Agents => path_join(home, ".agents/skills"@),
    }
}

/// The directory that is there where an agent is in use.
pub open spec fn own_dir_of(
    agent: Agent,
    home: Seq<char>,
    codex_home: Seq<char>,
    claude: Seq<char>,
) -> Seq<char> {
    match agent {
        Agent::Pi => path_join(home, ".pi"@),
        Agent::Codex => codex_home,
        Agent::Claude => path_join(home, "."@ + claude),
        Agent::Agents => path_join(home, ".agents/skills"@),
    }
}

/// A name in lower case, as far as its characters are ASCII letters.
fn lower_name(name: &str) -> (lower: String)
    ensures
        lower@ == lower_text(name@),
{
    let chars = chars_of(name);
    let len: usize = chars.len();
    let mut lower = String::new();
    let mut k: usize = 0;
    while k < len
        invariant
            len == chars@.len(),
            chars@ == name@,
            k <= len,
            lower@ =~= lower_text(name@).take(k as int),
        decreases len - k,
    {
        let c = chars[k];
        let ghost before = lower@;
        if 'A' <= c && c <= 'Z' {
            lower.push((c as u8 + 0x20) as char);
        } else {
            lower.push(c);
        }
        assert(lower@ =~= before.push(lower_text(name@)[k as int]));
        k = k + 1;
    }
    assert(lower_text(name@).take(len as int) =~= lower_text(name@));
    lower
}

/// A name with a dot in front.
fn dot_name(name: &str) -> (text: String)
    ensures
        text@ == "."@ + name@,
{
    let mut text = ".".to_owned();
    text.push_str(name);
    text
}

impl Agent {
    /// Every agent, in the order `all` installs them.
    pub const ALL: [Agent; 4] = [Agent::Pi, Agent::Codex, Agent::Claude, Agent::Agents];

    /// The agents that a name in lower case stands for.
    fn expand(name: &str, claude: &str) -> (agents: Option<Vec<Agent>>)
        ensures
            match agents {
                Some(agents) => expanded(name@, claude@) == Some(agents@),
                None => expanded(name@, claude@) is None,
            },
    {
        let mut long_name = claude.to_owned();
        long_name.push_str("-code");
        let mut agents: Vec<Agent> = Vec::new();
        if same_text(name, "pi") {
            agents.push(Agent::Pi);
            assert(agents@ =~= seq![Agent::Pi]);
        } else if same_text(name, "codex") {
            agents.push(Agent::Codex);
            assert(agents@ =~= seq![Agent::Codex]);
        } else if same_text(name, "agents") {
            agents.push(Agent::Agents);
            assert(agents@ =~= seq![Agent::Agents]);
        } else if same_text(name, "all") {
            agents.push(Agent::Pi);
            agents.push(Agent::Codex);
            agents.push(Agent::Claude);
            agents.push(Agent::Agents);
            assert(agents@ =~= all_agents());
        } else if same_text(name, claude) || same_text(name, long_name.as_str()) {
            agents.push(Agent::Claude);
            assert(agents@ =~= seq![Agent::Claude]);
        } else {
            return None;
        }
        Some(agents)
    }

    /// Appends those of `more` that are not in `selected` yet.
    fn extend(selected: &mut Vec<Agent>, more: &Vec<Agent>)
        ensures
            final(selected)@ == extended(old(selected)@, more@),
    {
        let mut k: usize = 0;
        assert(more@.take(0) =~= Seq::empty());
        while k < more.len()
            invariant
                k <= more@.len(),
                selected@ == extended(old(selected)@, more@.take(k as int)),
            decreases more@.len() - k,
        {
            let agent = more[k];
            let ghost before = selected@;
            let mut known = false;
            let mut i: usize = 0;
            while i < selected.len()
                invariant
                    i <= selected@.len(),
                    selected@ == before,
                    known == before.take(i as int).contains(agent),
                decreases selected@.len() - i,
            {
                proof {
                    let seen = before.take(i as int);
                    assert(before.take(i + 1) =~= seen.push(before[i as int]));
                    assert(before.take(i + 1)[i as int] == before[i as int]);
                    assert(forall|j: int| 0 <= j < i ==> before.take(i + 1)[j] == seen[j]);
                }
                if selected[i] == agent {
                    known = true;
                }
                i = i + 1;
            }
            proof {
                assert(before.take(before.len() as int) =~= before);
                assert(more@.take(k + 1).drop_last() =~= more@.take(k as int));
                assert(more@.take(k + 1).last() == agent);
            }
            if !known {
                selected.push(agent);
            }
            k = k + 1;
        }
        assert(more@.take(more@.len() as int) =~= more@);
    }

    /// Parses the `AGENT` arguments. `all` expands, duplicates collapse.
    ///
    /// The last parameter is the name that the host states for one agent, in lower case.
    pub fn parse(names: &[String], claude: &str) -> (agents: Result<Vec<Agent>, Error>)
        ensures
            match agents {
                Ok(agents) => selection_of(name_texts(names@), claude@) == Ok::<Seq<Agent>, Seq<char>>(
                    agents@,
                ),
                Err(error) => (error matches Error::UnknownAgent { name, claude: known } && known@ == claude@
                    && selection_of(
                    name_texts(names@),
                    claude@,
                ) == Err::<Seq<Agent>, Seq<char>>(name@)),
            },
    {
        let ghost texts = name_texts(names@);
        let mut selected: Vec<Agent> = Vec::new();
        let mut k: usize = 0;
        assert(texts.take(0) =~= Seq::empty());
        while k < names.len()
            invariant
                texts == name_texts(names@),
                k <= names@.len(),
                selection_of(texts.take(k as int), claude@) == Ok::<Seq<Agent>, Seq<char>>(selected@),
            decreases names@.len() - k,
        {
            let lower = lower_name(names[k].as_str());
            proof {
                assert(texts.take(k + 1).drop_last() =~= texts.take(k as int));
                assert(texts.take(k + 1).last() == names@[k as int]@);
            }
            match Agent::expand(lower.as_str(), claude) {
                Some(more) => {
                    Agent::extend(&mut selected, &more);
                },
                None => {
                    proof {
                        lemma_selection_fails(texts, claude@, k + 1);
                    }
                    return Err(Error::UnknownAgent { name: lower, claude: claude.to_owned() });
                },
            }
            k = k + 1;
        }
        assert(texts.take(names@.len() as int) =~= texts);
        Ok(selected)
    }

    /// The user-level skills directory this agent scans.
    ///
    /// `codex_home` is passed in instead of read from the environment here, so the paths
    /// stay testable without touching process-wide state.
    pub fn skills_dir(self, home: &str, codex_home: &str, claude: &str) -> (dir: String)
        ensures
            dir@ == skills_dir_of(self, home@, codex_home@, claude@),
    {
        match self {
            Agent::Pi => join(home, ".pi/agent/skills"),
            Agent::Codex => join(codex_home, "skills"),
            Agent::Claude => {
                let mut part = dot_name(claude);
                part.push_str("/skills");
                join(home, part.as_str())
            },
            Agent::Agents => join(home, ".agents/skills"),
        }
    }

    /// The directory that tells whether this agent looks like it is in use on a machine.
    ///
    /// Only each agent's own directory is consulted, so a machine using none of them ends up
    /// with the cross-agent location instead of a fresh dotdir per unused tool.
    pub fn own_dir(self, home: &str, codex_home: &str, claude: &str) -> (dir: String)
        ensures
            dir@ == own_dir_of(self, home@, codex_home@, claude@),
    {
        match self {
            Agent::Pi => join(home, ".pi"),
            Agent::Codex => codex_home.to_owned(),
            Agent::Claude => join(home, dot_name(claude).as_str()),
            Agent::Agents => join(home, ".agents/skills"),
        }
    }
}

/// A name that stands for no agent decides, whatever comes behind it.
proof fn lemma_selection_fails(names: Seq<Seq<char>>, claude: Seq<char>, k: int)
    requires
        0 <= k <= names.len(),
        selection_of(names.take(k), claude) is Err,
    ensures
        selection_of(names, claude) == selection_of(names.take(k), claude),
    decreases names.len() - k,
{
    if k == names.len() {
        assert(names.take(k) =~= names);
    } else {
        assert(names.take(k + 1).drop_last() =~= names.take(k));
        lemma_selection_fails(names, claude, k + 1);
    }
}

proof fn lemma_extended_once(selected: Seq<Agent>, more: Seq<Agent>)
    requires
        selected.no_duplicates(),
    ensures
        extended(selected, more).no_duplicates(),
    decreases more.len(),
{
    if more.len() > 0 {
        lemma_extended_once(selected, more.drop_last());
        let front = extended(selected, more.drop_last());
        if !front.contains(more.last()) {
            let all = front.push(more.last());
            assert forall|i: int, j: int|
                0 <= i < all.len() && 0 <= j < all.len() && i != j implies all[i] != all[j] by {
                if i < front.len() {
                    assert(front.contains(front[i]));
                }
                if j < front.len() {
                    assert(front.contains(front[j]));
                }
            }
        }
    }
}

/// No agent is selected twice, however often it is named.
pub proof fn law_no_agent_is_selected_twice(names: Seq<Seq<char>>, claude: Seq<char>)
    requires
        selection_of(names, claude) is Ok,
    ensures
        selection_of(names, claude)->Ok_0.no_duplicates(),
    decreases names.len(),
{
    if names.len() > 0 {
        law_no_agent_is_selected_twice(names.drop_last(), claude);
        lemma_extended_once(
            selection_of(names.drop_last(), claude)->Ok_0,
            expanded(lower_text(names.last()), claude)->0,
        );
    }
}

/// What a machine says about where skills go.
#[derive(Debug)]
pub struct Machine {
    /// `$HOME`.
    pub home: Option<String>,
    /// `$USERPROFILE`.
    pub user_profile: Option<String>,
    /// `$CODEX_HOME`.
    pub codex_home: Option<String>,
    /// Whether pi's own directory is there.
    pub pi: bool,
    /// Whether Codex's own directory is there.
    pub codex: bool,
    /// Whether the own directory of the agent that the host names is there.
    pub claude: bool,
    /// The name of that agent, in lower case.
    pub claude_name: String,
}

/// The home directory that the environment states.
pub open spec fn home_of(home: Option<String>, user_profile: Option<String>) -> Option<Seq<char>> {
    let stated = match home {
        Some(home) => Some(home@),
        None => match user_profile {
            Some(profile) => Some(profile@),
            None => None,
        },
    };
    match stated {
        Some(path) => if path.len() == 0 {
            None
        } else {
            Some(path)
        },
        None => None,
    }
}

/// The home directory, as the agents themselves resolve it.
pub fn home_dir(home: &Option<String>, user_profile: &Option<String>) -> (dir: Result<String, Error>)
    ensures
        match dir {
            Ok(dir) => home_of(*home, *user_profile) == Some(dir@),
            Err(error) => home_of(*home, *user_profile) is None && error == Error::NoHomeDirectory,
        },
{
    let stated: &str = match home {
        Some(home) => home.as_str(),
        None => match user_profile {
            Some(profile) => profile.as_str(),
            None => {
                return Err(Error::NoHomeDirectory);
            },
        },
    };
    if stated.is_empty() {
        return Err(Error::NoHomeDirectory);
    }
    Ok(stated.to_owned())
}

/// Codex's directory, given what the environment states.
pub open spec fn codex_home_of(stated: Option<String>, home: Seq<char>) -> Seq<char> {
    match stated {
        Some(path) => if path@.len() == 0 {
            path_join(home, ".codex"@)
        } else {
            path@
        },
        None => path_join(home, ".codex"@),
    }
}

/// Codex reads `$CODEX_HOME`; `~/.codex` is only the fallback.
pub fn codex_home(stated: &Option<String>, home: &str) -> (dir: String)
    ensures
        dir@ == codex_home_of(*stated, home@),
{
    match stated {
        Some(path) => {
            let path = path.as_str();
            if path.is_empty() {
                join(home, ".codex")
            } else {
                path.to_owned()
            }
        },
        None => join(home, ".codex"),
    }
}

/// The agents that a skill is installed for when none is named.
pub open spec fn default_agents_of(pi: bool, codex: bool, claude: bool) -> Seq<Agent> {
    if !pi && !codex && !claude {
        seq![Agent::Agents]
    } else {
        (if pi {
            seq![Agent::Pi]
        } else {
            Seq::empty()
        }) + (if codex {
            seq![Agent::Codex]
        } else {
            Seq::empty()
        }) + (if claude {
            seq![Agent::Claude]
        } else {
            Seq::empty()
        })
    }
}

/// `rasc skill` without `AGENT` installs for every agent that looks installed; when none
/// does, the cross-agent location is the only sensible place left.
pub fn default_agents(pi: bool, codex: bool, claude: bool) -> (agents: Vec<Agent>)
    ensures
        agents@ == default_agents_of(pi, codex, claude),
{
    let mut agents: Vec<Agent> = Vec::new();
    if pi {
        agents.push(Agent::Pi);
    }
    if codex {
        agents.push(Agent::Codex);
    }
    if claude {
        agents.push(Agent::Claude);
    }
    if agents.len() == 0 {
        agents.push(Agent::Agents);
    }
    assert(agents@ =~= default_agents_of(pi, codex, claude));
    agents
}

/// The `SKILL.md` path inside a skills directory.
pub open spec fn skill_path_of(skills_dir: Seq<char>) -> Seq<char> {
    path_join(path_join(skills_dir, SKILL_NAME@), "SKILL.md"@)
}

/// The `SKILL.md` path inside a skills directory.
pub fn skill_path(skills_dir: &str) -> (path: String)
    ensures
        path@ == skill_path_of(skills_dir@),
{
    join(join(skills_dir, SKILL_NAME).as_str(), "SKILL.md")
}

/// The paths to write for the given agents.
pub open spec fn agent_paths(
    agents: Seq<Agent>,
    home: Seq<char>,
    codex_home: Seq<char>,
    claude: Seq<char>,
) -> Seq<Seq<char>> {
    agents.map_values(|agent: Agent| skill_path_of(skills_dir_of(agent, home, codex_home, claude)))
}

/// The paths to write on a machine with the given directories.
pub open spec fn named_paths(
    agents: Seq<Seq<char>>,
    machine: Machine,
    home: Seq<char>,
) -> Result<Seq<Seq<char>>, Seq<char>> {
    let codex_home = codex_home_of(machine.codex_home, home);
    if agents.len() == 0 {
        Ok(
            agent_paths(
                default_agents_of(machine.pi, machine.codex, machine.claude),
                home,
                codex_home,
                machine.claude_name@,
            ),
        )
    } else {
        match selection_of(agents, machine.claude_name@) {
            Ok(selected) => Ok(
                agent_paths(selected, home, codex_home, machine.claude_name@),
            ),
            Err(name) => Err(name),
        }
    }
}

/// Resolves the `SKILL.md` paths to write from the command line.
///
/// An empty `agents` means auto-detection. `--dir`, when given, is the whole destination - a
/// skills directory of a project, not the skill directory itself - and cannot be
/// combined with an explicit `AGENT`, because silently ignoring one of the two would hide a
/// typo in the other.
pub fn targets(agents: &[String], dir: Option<&str>, machine: &Machine) -> (paths: Result<
    Vec<String>,
    Error,
>)
    ensures
        match dir {
            Some(dir) => if agents@.len() == 0 {
                paths matches Ok(list) && name_texts(list@) == seq![skill_path_of(dir@)]
            } else {
                paths == Err::<Vec<String>, Error>(Error::AgentsWithDirectory)
            },
            None => match home_of(machine.home, machine.user_profile) {
                None => paths == Err::<Vec<String>, Error>(Error::NoHomeDirectory),
                Some(home) => match paths {
                    Ok(list) => named_paths(name_texts(agents@), *machine, home) == Ok::<
                        Seq<Seq<char>>,
                        Seq<char>,
                    >(name_texts(list@)),
                    Err(error) => (error matches Error::UnknownAgent { name, claude } && claude@
                        == machine.claude_name@ && named_paths(
                        name_texts(agents@),
                        *machine,
                        home,
                    ) == Err::<Seq<Seq<char>>, Seq<char>>(name@)),
                },
            },
        },
{
    let mut paths: Vec<String> = Vec::new();
    if let Some(dir) = dir {
        if agents.len() != 0 {
            return Err(Error::AgentsWithDirectory);
        }
        paths.push(skill_path(dir));
        assert(name_texts(paths@) =~= seq![skill_path_of(dir@)]);
        return Ok(paths);
    }
    let home = match home_dir(&machine.home, &machine.user_profile) {
        Ok(home) => home,
        Err(error) => {
            return Err(error);
        },
    };
    let codex_home = codex_home(&machine.codex_home, home.as_str());
    let selected = if agents.len() == 0 {
        default_agents(machine.pi, machine.codex, machine.claude)
    } else {
        match Agent::parse(agents, machine.claude_name.as_str()) {
            Ok(selected) => selected,
            Err(error) => {
                return Err(error);
            },
        }
    };
    let ghost all = agent_paths(selected@, home@, codex_home@, machine.claude_name@);
    let mut k: usize = 0;
    assert(name_texts(paths@) =~= all.take(0));
    while k < selected.len()
        invariant
            all == agent_paths(selected@, home@, codex_home@, machine.claude_name@),
            k <= selected@.len(),
            name_texts(paths@) == all.take(k as int),
        decreases selected@.len() - k,
    {
        let path = skill_path(
            selected[k].skills_dir(
                home.as_str(),
                codex_home.as_str(),
                machine.claude_name.as_str(),
            ).as_str(),
        );
        let ghost before = paths@;
        paths.push(path);
        proof {
            assert(name_texts(paths@) =~= name_texts(before).push(path@));
            assert(all.take(k + 1) =~= all.take(k as int).push(all[k as int]));
        }
        k = k + 1;
    }
    assert(all.take(selected@.len() as int) =~= all);
    Ok(paths)
}

/// What installing at one path did.
#[derive(Clone, Copy, Debug, PartialEq, Eq, Structural)]
pub enum Outcome {
    /// The skill was not there before.
    Installed,
    /// An existing skill was replaced.
    Updated,
    /// The file already had exactly this content.
    Unchanged,
}

impl Outcome {
    /// The word the CLI prints in front of the path.
    pub fn verb(self) -> (word: &'static str)
        ensures
            word@ == (match self {
                Outcome::Installed => "installed"@,
                Outcome::Updated => "updated"@,
                Outcome::Unchanged => "unchanged"@,
            }),
    {
        match self {
            Outcome::Installed => "installed",
            Outcome::Updated => "updated",
            Outcome::Unchanged => "unchanged",
        }
    }
}

/// What installing does, given what the file holds and the name of the agent that the host states.
pub open spec fn outcome_of(current: Option<Seq<char>>, claude: Seq<char>) -> Outcome {
    match current {
        Some(text) => if text == skill_of(claude) {
            Outcome::Unchanged
        } else {
            Outcome::Updated
        },
        None => Outcome::Installed,
    }
}

/// What installing does, given what the file holds.
///
/// Re-running the command is the normal way to update the skill, so an identical file is
/// left untouched. Not readable means "not installed here", which is the same as absent.
pub fn install_outcome(current: Option<&str>, claude: &str) -> (outcome: Outcome)
    ensures
        outcome == outcome_of(
            match current {
                Some(text) => Some(text@),
                None => None,
            },
            claude@,
        ),
{
    match current {
        Some(text) => if same_text(text, skill_text(claude).as_str()) {
            Outcome::Unchanged
        } else {
            Outcome::Updated
        },
        None => Outcome::Installed,
    }
}

/// Installing over what an installation wrote changes nothing, and nothing else is left alone.
pub proof fn law_installing_twice_changes_nothing(current: Option<Seq<char>>, claude: Seq<char>)
    ensures
        outcome_of(Some(skill_of(claude)), claude) == Outcome::Unchanged,
        outcome_of(current, claude) == Outcome::Unchanged ==> current == Some(skill_of(claude)),
{
}

/// Every agent that a name stands for is selected, and no agent is that no name stands for.
pub proof fn law_named_agents_are_selected(names: Seq<Seq<char>>, claude: Seq<char>, agent: Agent)
    requires
        selection_of(names, claude) is Ok,
    ensures
        selection_of(names, claude)->Ok_0.contains(agent) <==> exists|i: int|
            0 <= i < names.len() && (expanded(#[trigger] lower_text(names[i]), claude) matches Some(
                more,
            ) && more.contains(agent)),
        forall|i: int|
            0 <= i < names.len() ==> expanded(#[trigger] lower_text(names[i]), claude) is Some,
    decreases names.len(),
{
    if names.len() > 0 {
        let front = names.drop_last();
        let last = names.len() - 1;
        law_named_agents_are_selected(front, claude, agent);
        let selected = selection_of(front, claude)->Ok_0;
        let more = expanded(lower_text(names.last()), claude)->0;
        lemma_extended_has(selected, more, agent);
        assert(names[last] == names.last());
        assert forall|i: int| 0 <= i < front.len() implies front[i] == names[i] by {}
        if selected.contains(agent) {
            let i = choose|i: int|
                0 <= i < front.len() && (expanded(#[trigger] lower_text(front[i]), claude) matches Some(
                    more,
                ) && more.contains(agent));
            assert(expanded(lower_text(names[i]), claude)->0.contains(agent));
        }
        if more.contains(agent) {
            assert(expanded(lower_text(names[last]), claude)->0.contains(agent));
        }
        assert forall|i: int| 0 <= i < names.len() implies expanded(
            #[trigger] lower_text(names[i]),
            claude,
        ) is Some by {
            if i < last {
                assert(expanded(lower_text(front[i]), claude) is Some);
            }
        }
        if exists|i: int|
            0 <= i < names.len() && (expanded(#[trigger] lower_text(names[i]), claude) matches Some(
                more,
            ) && more.contains(agent)) {
            let i = choose|i: int|
                0 <= i < names.len() && (expanded(#[trigger] lower_text(names[i]), claude) matches Some(
                    more,
                ) && more.contains(agent));
            if i < last {
                assert(expanded(lower_text(front[i]), claude)->0.contains(agent));
            }
        }
    }
}

proof fn lemma_extended_has(selected: Seq<Agent>, more: Seq<Agent>, agent: Agent)
    ensures
        extended(selected, more).contains(agent) <==> selected.contains(agent) || more.contains(agent),
    decreases more.len(),
{
    if more.len() > 0 {
        let rest = more.drop_last();
        let front = extended(selected, rest);
        lemma_extended_has(selected, rest, agent);
        if more.contains(agent) {
            let i = choose|i: int| 0 <= i < more.len() && more[i] == agent;
            if i < rest.len() {
                assert(rest[i] == agent);
                assert(rest.contains(agent));
            }
        }
        if rest.contains(agent) {
            let i = choose|i: int| 0 <= i < rest.len() && rest[i] == agent;
            assert(more[i] == agent);
        }
        let all = extended(selected, more);
        if front.contains(agent) {
            let i = choose|i: int| 0 <= i < front.len() && front[i] == agent;
            assert(all[i] == agent);
        }
        if more.last() == agent && !front.contains(agent) {
            assert(all[front.len() as int] == agent);
        }
        if all.contains(agent) {
            let i = choose|i: int| 0 <= i < all.len() && all[i] == agent;
            if i < front.len() {
                assert(front[i] == agent);
            } else {
                assert(more[more.len() - 1] == agent);
            }
        }
    }
}

/// The names stand for the agents they name, `all` for every agent.
pub proof fn law_all_stands_for_every_agent(claude: Seq<char>, agent: Agent)
    ensures
        expanded("all"@, claude) matches Some(agents) && agents.contains(agent)
            && agents.no_duplicates(),
{
    reveal_strlit("all");
    reveal_strlit("pi");
    reveal_strlit("codex");
    reveal_strlit("agents");
    assert("all"@.len() == 3 && "pi"@.len() == 2 && "codex"@.len() == 5 && "agents"@.len() == 6);
    let agents = all_agents();
    assert(agents[0] == Agent::Pi && agents[1] == Agent::Codex && agents[2] == Agent::Claude
        && agents[3] == Agent::Agents);
}

/// Without a name, the skill goes to every agent that is there, and to the shared place where none
/// is.
pub proof fn law_agents_that_are_there_are_taken(pi: bool, codex: bool, claude: bool)
    ensures
        default_agents_of(pi, codex, claude).contains(Agent::Pi) <==> pi,
        default_agents_of(pi, codex, claude).contains(Agent::Codex) <==> codex,
        default_agents_of(pi, codex, claude).contains(Agent::Claude) <==> claude,
        default_agents_of(pi, codex, claude).contains(Agent::Agents) <==> !pi && !codex && !claude,
        default_agents_of(pi, codex, claude).len() > 0,
{
    let list = default_agents_of(pi, codex, claude);
    if pi {
        assert(list[0] == Agent::Pi);
    }
    if codex {
        assert(list[if pi {
            1
        } else {
            0int
        }] == Agent::Codex);
    }
    if claude {
        assert(list.last() == Agent::Claude);
        assert(list[list.len() - 1] == Agent::Claude);
    }
    if !pi && !codex && !claude {
        assert(list[0] == Agent::Agents);
    }
}

/// A part that is joined to a path stands at its end, behind the path and one slash.
pub proof fn law_a_joined_path_keeps_its_parts(base: Seq<char>, part: Seq<char>)
    ensures
        occurs_at(path_join(base, part), base, 0),
        occurs_at(path_join(base, part), part, path_join(base, part).len() - part.len()),
        base.len() > 0 && base.last() != '/' ==> path_join(base, part).len() == base.len() + 1
            + part.len() && path_join(base, part)[base.len() as int] == '/',
        base.len() == 0 || base.last() == '/' ==> path_join(base, part) == base + part,
{
    reveal_strlit("/");
    let path = path_join(base, part);
    assert(path.subrange(0, base.len() as int) =~= base);
    assert(path.subrange(path.len() - part.len(), path.len() as int) =~= part);
    if base.len() == 0 {
        assert(base + part =~= part);
    }
}

/// Names are told apart without regard to the case of their letters, and by nothing less.
pub proof fn law_names_ignore_the_case_of_letters(text: Seq<char>, i: int)
    requires
        0 <= i < text.len(),
    ensures
        lower_text(text).len() == text.len(),
        'A' <= text[i] && text[i] <= 'Z' ==> lower_text(text)[i] as int - 'a' as int == text[i] as int
            - 'A' as int,
        !('A' <= text[i] && text[i] <= 'Z') ==> lower_text(text)[i] == text[i],
{
}

/// The skill of an agent goes where that agent looks for it: below the home directory, or below the
/// own home of the agent that has one.
pub proof fn law_skills_go_where_agents_look(
    home: Seq<char>,
    codex_home: Seq<char>,
    claude: Seq<char>,
)
    requires
        home.len() > 0 && home.last() != '/',
        codex_home.len() > 0 && codex_home.last() != '/',
        claude.len() > 0,
    ensures
        skill_path_of(skills_dir_of(Agent::Pi, home, codex_home, claude)) == home
            + "/.pi/agent/skills/rasc/SKILL.md"@,
        skill_path_of(skills_dir_of(Agent::Codex, home, codex_home, claude)) == codex_home
            + "/skills/rasc/SKILL.md"@,
        skill_path_of(skills_dir_of(Agent::Claude, home, codex_home, claude)) == home + "/."@ + claude
            + "/skills/rasc/SKILL.md"@,
        skill_path_of(skills_dir_of(Agent::Agents, home, codex_home, claude)) == home
            + "/.agents/skills/rasc/SKILL.md"@,
{
    assert(".pi/agent/skills"@.len() > 0 && ".pi/agent/skills"@.last() == 's'
        && "/.pi/agent/skills/rasc/SKILL.md"@ =~= seq!['/'] + ".pi/agent/skills"@ + "/rasc/SKILL.md"@)
        by {
        reveal_strlit(".pi/agent/skills");
        reveal_strlit("/rasc/SKILL.md");
        reveal_strlit("/.pi/agent/skills/rasc/SKILL.md");
    }
    lemma_path_below(home, ".pi/agent/skills"@);
    assert("skills"@.len() > 0 && "skills"@.last() == 's' && "/skills/rasc/SKILL.md"@ =~= seq!['/']
        + "skills"@ + "/rasc/SKILL.md"@) by {
        reveal_strlit("skills");
        reveal_strlit("/rasc/SKILL.md");
        reveal_strlit("/skills/rasc/SKILL.md");
    }
    lemma_path_below(codex_home, "skills"@);
    assert(".agents/skills"@.len() > 0 && ".agents/skills"@.last() == 's'
        && "/.agents/skills/rasc/SKILL.md"@ =~= seq!['/'] + ".agents/skills"@ + "/rasc/SKILL.md"@) by {
        reveal_strlit(".agents/skills");
        reveal_strlit("/rasc/SKILL.md");
        reveal_strlit("/.agents/skills/rasc/SKILL.md");
    }
    lemma_path_below(home, ".agents/skills"@);
    lemma_named_path(home, claude);
}

/// Where the skill goes below a directory.
proof fn lemma_path_below(home: Seq<char>, part: Seq<char>)
    requires
        home.len() > 0 && home.last() != '/',
        part.len() > 0 && part.last() != '/',
    ensures
        skill_path_of(path_join(home, part)) == home + (seq!['/'] + part + "/rasc/SKILL.md"@),
{
    let dir = path_join(home, part);
    assert(dir =~= home + (seq!['/'] + part)) by {
        reveal_strlit("/");
    }
    assert(dir.last() == part.last());
    lemma_skill_path(dir);
    assert(home + (seq!['/'] + part) + "/rasc/SKILL.md"@ =~= home + (seq!['/'] + part
        + "/rasc/SKILL.md"@));
}

/// Where the skill goes for the agent that the host names.
proof fn lemma_named_path(home: Seq<char>, claude: Seq<char>)
    requires
        home.len() > 0 && home.last() != '/',
    ensures
        skill_path_of(path_join(home, "."@ + claude + "/skills"@)) == home + "/."@ + claude
            + "/skills/rasc/SKILL.md"@,
{
    let part = "."@ + claude + "/skills"@;
    assert("/skills"@.len() == 7 && "/skills"@[6] == 's' && "/skills/rasc/SKILL.md"@ =~= "/skills"@
        + "/rasc/SKILL.md"@) by {
        reveal_strlit("/skills");
        reveal_strlit("/rasc/SKILL.md");
        reveal_strlit("/skills/rasc/SKILL.md");
    }
    assert("/."@ =~= seq!['/'] + "."@) by {
        reveal_strlit(".");
        reveal_strlit("/.");
    }
    assert(part.last() == "/skills"@[6]);
    lemma_path_below(home, part);
    let tail = "/rasc/SKILL.md"@;
    assert(home + (seq!['/'] + part + tail) =~= home + (seq!['/'] + "."@) + claude + ("/skills"@
        + tail));
}

proof fn lemma_skill_path(dir: Seq<char>)
    requires
        dir.len() > 0,
        dir.last() != '/',
    ensures
        skill_path_of(dir) == dir + "/rasc/SKILL.md"@,
{
    reveal_strlit("/");
    reveal_strlit("rasc");
    reveal_strlit("SKILL.md");
    reveal_strlit("/rasc/SKILL.md");
    let inner = path_join(dir, SKILL_NAME@);
    assert(inner.last() == 'c');
    assert(skill_path_of(dir) =~= dir + "/rasc/SKILL.md"@);
}

/// The home directory is the first that the environment states, if it states one that is not empty.
pub proof fn law_the_first_stated_home_counts(home: Option<String>, profile: Option<String>)
    ensures
        home_of(home, profile) matches Some(path) ==> path.len() > 0 && (home matches Some(own)
            ==> path == own@) && (home is None ==> profile is Some && path == (profile->0)@),
        home_of(home, profile) is None <==> (home is None && profile is None) || (home matches Some(own)
            && own@.len() == 0) || (home is None && (profile matches Some(own) && own@.len() == 0)),
{
}

/// The directory that shows that an agent is there is the one its skills go below.
pub proof fn law_agents_are_found_where_their_skills_go(
    agent: Agent,
    home: Seq<char>,
    codex_home: Seq<char>,
    claude: Seq<char>,
)
    requires
        home.len() > 0,
        codex_home.len() > 0,
    ensures
        occurs_at(
            skills_dir_of(agent, home, codex_home, claude),
            own_dir_of(agent, home, codex_home, claude),
            0,
        ),
        agent is Codex ==> own_dir_of(agent, home, codex_home, claude) == codex_home,
        !(agent is Codex) ==> occurs_at(own_dir_of(agent, home, codex_home, claude), home, 0)
            && own_dir_of(agent, home, codex_home, claude).len() > home.len(),
{
    reveal_strlit(".pi");
    reveal_strlit(".");
    reveal_strlit(".agents/skills");
    reveal_strlit(".pi/agent/skills");
    let dir = skills_dir_of(agent, home, codex_home, claude);
    let own = own_dir_of(agent, home, codex_home, claude);
    assert(dir.subrange(0, own.len() as int) =~= own);
    if !(agent is Codex) {
        assert(own.subrange(0, home.len() as int) =~= home);
    }
}

} // verus!
