use headwater_check::command::programs;
use headwater_check::command::{Block, Run, Undeclared, RULE};
use headwater_check::instance::Outcome;
use headwater_check::language::BlockKind;

fn names(text: &str, console: bool) -> Vec<(usize, String)> {
    programs(text, console)
}

fn pairs(list: &[(usize, &str)]) -> Vec<(usize, String)> {
    list.iter().map(|(l, n)| (*l, n.to_string())).collect()
}

#[test]
fn a_prompt_a_comment_and_a_blank_line_are_skipped() {
    assert_eq!(
        names("# set up\n\n$ headwater check\nFOO=1 git init\n", false),
        pairs(&[(2, "headwater"), (3, "git")])
    );
}

#[test]
fn every_program_of_a_pipeline_is_read_and_a_quoted_bar_is_not_an_operator() {
    let block = "grep -rlZ -E 'a|b' docs \\\n  | xargs -0 sed -i \\\n      -e 's#a#b#g'\n";
    assert_eq!(names(block, false), pairs(&[(0, "grep"), (1, "xargs")]));
    assert_eq!(
        names("cd x && make; ls | wc -l 2>&1\n", false),
        pairs(&[(0, "cd"), (0, "make"), (0, "ls"), (0, "wc")])
    );
}

#[test]
fn a_console_block_reads_only_prompted_lines() {
    assert_eq!(
        names("$ headwater check\nwrote x\n0 findings\n", true),
        pairs(&[(0, "headwater")])
    );
}

#[test]
fn grammar_and_a_heredoc_body_are_not_programs() {
    let block = "if headwater check; then\n  echo ok\nfi\ncat > x <<'EOF'\nrm -rf /\nEOF\nfor f in a b; do tar x; done\n";
    assert_eq!(
        names(block, false),
        pairs(&[(0, "headwater"), (1, "echo"), (3, "cat"), (6, "tar")])
    );
}

#[test]
fn a_console_continuation_drops_its_prompt() {
    assert_eq!(
        names("$ git commit \\\n> -m x && git push\nok\n", true),
        pairs(&[(0, "git"), (1, "git")])
    );
}

#[test]
fn a_variable_a_redirection_and_a_here_string_name_no_program() {
    assert_eq!(names("$HOME/bin/x\n< in.txt sort\ncat <<< word\nls\n", false), pairs(&[(2, "cat"), (3, "ls")]));
    assert_eq!(names("(cd x && \"make\")\n", false), pairs(&[(0, "cd"), (0, "make")]));
}

#[test]
fn an_unfinished_continuation_names_nothing() {
    assert_eq!(names("make \\\n", false), pairs(&[]));
}


fn shell(info: &str, line: usize, text: &str) -> Block {
    Block {
        kind: BlockKind::Code,
        info: Some(info.to_string()),
        runs: vec![Run { text: text.to_string(), line, code: true }],
    }
}

fn surface() -> Undeclared {
    Undeclared::over(vec!["docs/adopt/*.md".to_string()], vec!["git".to_string(), "headwater".to_string()])
}

#[test]
fn a_program_the_surface_does_not_declare_is_an_error_at_its_line() {
    let blocks = vec![
        shell("sh", 10, "git clone x\ncurl -sSf y | sh\n"),
        shell("text", 20, "make\n"),
        shell("bash", 3, "./bin/headwater check\nmake all\n"),
    ];
    let Outcome::Failed(found) = surface().evaluate(true, "docs/adopt/a.md", Some(&blocks)) else {
        panic!("findings");
    };
    let at: Vec<(usize, &str)> = found.iter().map(|f| (f.line, f.message.as_str())).collect();
    assert_eq!(
        at,
        [
            (4, "a shell block runs `make`, and `commands` of the consumer surface does not declare it (HW-DR-0077)"),
            (11, "a shell block runs `curl`, and `commands` of the consumer surface does not declare it (HW-DR-0077)"),
            (11, "a shell block runs `sh`, and `commands` of the consumer surface does not declare it (HW-DR-0077)"),
        ]
    );
    assert!(found.iter().all(|f| f.rule == RULE && f.column == 1 && f.path == "docs/adopt/a.md"));
    assert_eq!(
        found[0].remediation,
        "add `make` to `surface.commands` if an adopter must have it installed, name a declared command that does this, or mark the step as a deliberate exception with `<!-- headwater allow=surface.command.undeclared scope=block reason=accepted_deviation ... -->`"
    );
}

#[test]
fn a_page_for_no_adopter_and_a_surface_that_declares_nothing_pass() {
    let blocks = vec![shell("sh", 1, "make\n")];
    assert!(matches!(surface().evaluate(false, "docs/a.md", Some(&blocks)), Outcome::Passed));
    let empty = Undeclared::over(Vec::new(), vec!["git".to_string()]);
    assert!(!empty.instantiates());
    assert!(matches!(empty.evaluate(true, "docs/adopt/a.md", Some(&blocks)), Outcome::Passed));
    assert!(matches!(surface().evaluate(true, "docs/adopt/a.md", None), Outcome::Passed));
}
