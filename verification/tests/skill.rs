//! The bundled skill and where it goes.
use rasc::error::Error;
use rasc::skill::{
    codex_home, default_agents, home_dir, install_outcome, skill_path, skill_text, targets, Agent,
    Machine, Outcome, SKILL_NAME,
};

/// The value of a `key: value` frontmatter line.
fn frontmatter(key: &str) -> String {
    let prefix = format!("{key}: ");
    skill()
        .lines()
        .skip(1)
        .take_while(|line| *line != "---")
        .find_map(|line| line.strip_prefix(&prefix))
        .unwrap_or_else(|| panic!("frontmatter has no `{key}`"))
        .trim()
        .to_owned()
}

/// The name of the agent that the host states: that of its variant, in lower case.
fn claude() -> String {
    format!("{:?}", Agent::Claude).to_lowercase()
}

/// The skill that `--print` emits and an installation writes.
fn skill() -> String {
    skill_text(&claude())
}

/// A machine with a home directory and none of the agents.
fn machine() -> Machine {
    Machine {
        home: Some("/home/user".to_owned()),
        user_profile: None,
        codex_home: None,
        pi: false,
        codex: false,
        claude: false,
        claude_name: claude(),
    }
}

fn names(list: &[&str]) -> Vec<String> {
    list.iter().map(|name| (*name).to_owned()).collect()
}

#[test]
fn the_bundled_skill_has_valid_frontmatter() {
    assert!(
        skill().starts_with("---\n"),
        "the file must open with YAML frontmatter"
    );
    let name = frontmatter("name");
    assert_eq!(name, SKILL_NAME);
    assert!(
        name.chars()
            .all(|c| c.is_ascii_lowercase() || c.is_ascii_digit() || c == '-'),
        "skill names are lowercase a-z, 0-9 and hyphens"
    );
    let description = frontmatter("description");
    assert!(!description.is_empty() && description.chars().count() <= 1024);
    // The whole point of the file is telling an agent which commands exist.
    for command in ["getclass", "findrefs", "classes", "manifest"] {
        assert!(
            skill().contains(command),
            "the skill no longer mentions `{command}`"
        );
    }
}

#[test]
fn each_agent_uses_its_documented_directory() {
    let home = "/home/user";
    let codex = "/opt/codex-home";
    let claude = &claude();
    assert_eq!(
        Agent::Pi.skills_dir(home, codex, claude),
        "/home/user/.pi/agent/skills"
    );
    assert_eq!(
        Agent::Codex.skills_dir(home, codex, claude),
        "/opt/codex-home/skills"
    );
    assert_eq!(
        Agent::Claude.skills_dir(home, codex, claude),
        format!("/home/user/.{}/skills", claude)
    );
    assert_eq!(
        Agent::Agents.skills_dir(home, codex, claude),
        "/home/user/.agents/skills"
    );
}

#[test]
fn agent_arguments_parse_expand_and_deduplicate() {
    let claude = &claude();
    let code = format!("{}-code", claude);
    assert_eq!(Agent::parse(&names(&["all"]), claude).unwrap(), Agent::ALL);
    assert_eq!(
        Agent::parse(&names(&["PI", "pi", &code]), claude).unwrap(),
        vec![Agent::Pi, Agent::Claude]
    );
    assert!(Agent::parse(&names(&["vscode"]), claude).is_err());
}

#[test]
fn dir_is_one_destination_and_excludes_agents() {
    let dir = &format!("/tmp/project/.{}/skills", claude());
    assert_eq!(
        targets(&[], Some(dir), &machine()).unwrap(),
        vec![format!("{dir}/rasc/SKILL.md")]
    );
    assert!(targets(&["pi".to_owned()], Some(dir), &machine()).is_err());
}

/// What the file system says about each agent decides, and the cross-agent location is the
/// fallback.
#[test]
fn auto_detection_picks_installed_agents_and_falls_back() {
    assert_eq!(default_agents(false, false, false), vec![Agent::Agents]);
    assert_eq!(default_agents(true, false, false), vec![Agent::Pi]);
    assert_eq!(
        default_agents(true, true, true),
        vec![Agent::Pi, Agent::Codex, Agent::Claude]
    );
    assert_eq!(default_agents(false, false, true), vec![Agent::Claude]);
    // What is looked for on the file system.
    assert_eq!(Agent::Pi.own_dir("/h", "/c", "x"), "/h/.pi");
    assert_eq!(Agent::Codex.own_dir("/h", "/c", "x"), "/c");
    assert_eq!(Agent::Claude.own_dir("/h", "/c", "x"), "/h/.x");
    assert_eq!(Agent::Agents.own_dir("/h", "/c", "x"), "/h/.agents/skills");
}

#[test]
fn a_selection_names_every_agent_once() {
    let claude = &claude();
    let selected = Agent::parse(&names(&["codex", "all", "Codex", "pi"]), claude).unwrap();
    assert_eq!(
        selected,
        vec![Agent::Codex, Agent::Pi, Agent::Claude, Agent::Agents]
    );
    assert_eq!(
        Agent::parse(&names(&[claude, &format!("{:?}-Code", Agent::Claude)]), claude).unwrap(),
        vec![Agent::Claude]
    );
    assert_eq!(
        Agent::ALL,
        [Agent::Pi, Agent::Codex, Agent::Claude, Agent::Agents]
    );
}

#[test]
fn an_unknown_agent_is_named_in_the_error() {
    let claude = &claude();
    let error = Agent::parse(&names(&["pi", "VSCode", "nano"]), claude).unwrap_err();
    assert_eq!(
        error.message(),
        format!(
            "unknown agent `vscode` (want pi, codex, {}, agents or all)",
            claude
        )
    );
    let error = targets(&names(&["emacs"]), None, &machine()).unwrap_err();
    assert!(matches!(error, Error::UnknownAgent { .. }));
}

#[test]
fn paths_follow_the_environment() {
    let mut here = machine();
    here.pi = true;
    assert_eq!(
        targets(&[], None, &here).unwrap(),
        vec!["/home/user/.pi/agent/skills/rasc/SKILL.md"]
    );
    here.claude = true;
    assert_eq!(
        targets(&[], None, &here).unwrap(),
        vec![
            "/home/user/.pi/agent/skills/rasc/SKILL.md".to_owned(),
            format!("/home/user/.{}/skills/rasc/SKILL.md", claude())
        ]
    );
    here.codex_home = Some("/opt/codex".to_owned());
    assert_eq!(
        targets(&names(&["codex"]), None, &here).unwrap(),
        vec!["/opt/codex/skills/rasc/SKILL.md"]
    );
    here.codex_home = Some(String::new());
    assert_eq!(
        targets(&names(&["codex"]), None, &here).unwrap(),
        vec!["/home/user/.codex/skills/rasc/SKILL.md"]
    );
    assert_eq!(codex_home(&None, "/h/"), "/h/.codex");
    assert_eq!(skill_path(""), "rasc/SKILL.md");
}

#[test]
fn a_home_has_to_be_stated() {
    let profile = Some("/profile".to_owned());
    assert_eq!(home_dir(&None, &profile).unwrap(), "/profile");
    // A home that is set but empty is not replaced.
    assert_eq!(
        home_dir(&Some(String::new()), &profile).unwrap_err().message(),
        "cannot determine the home directory (HOME is unset); use --dir"
    );
    assert!(matches!(home_dir(&None, &None), Err(Error::NoHomeDirectory)));
    let mut nowhere = machine();
    nowhere.home = None;
    assert!(matches!(
        targets(&[], None, &nowhere),
        Err(Error::NoHomeDirectory)
    ));
    assert_eq!(
        targets(&names(&["pi"]), Some("x"), &nowhere).unwrap_err().message(),
        "AGENT and --dir are mutually exclusive; --dir already names one destination"
    );
}

#[test]
fn installing_twice_changes_nothing() {
    let claude = &claude();
    assert_eq!(install_outcome(None, claude), Outcome::Installed);
    assert_eq!(install_outcome(Some("stale"), claude), Outcome::Updated);
    assert_eq!(install_outcome(Some(&skill()), claude), Outcome::Unchanged);
    assert_eq!(install_outcome(Some(&skill_text("other")), claude), Outcome::Updated);
    assert_eq!(Outcome::Installed.verb(), "installed");
    assert_eq!(Outcome::Updated.verb(), "updated");
    assert_eq!(Outcome::Unchanged.verb(), "unchanged");
}

/// The skill ends by naming the agents that an installation knows.
#[test]
fn the_skill_names_the_agents_it_installs_for() {
    assert!(skill().ends_with(&format!(
        "\n- Update this skill with `rasc skill` (pi, Codex, {:?} Code; `--print` for anything else).\n",
        Agent::Claude
    )));
    assert!(skill_text("").ends_with("(pi, Codex,  Code; `--print` for anything else).\n"));
    assert!(skill_text("X-1").ends_with("(pi, Codex, X-1 Code; `--print` for anything else).\n"));
    assert_eq!(skill().len(), 3923);
}
