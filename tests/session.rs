use upgrade_picker::text::{chars_of, remove_char, trimmed};
use upgrade_picker::{build_catalog, prompt_step, upgrade_order, Program, PromptStep};

fn pad(s: &str, width: usize) -> String {
    let mut r = String::from(s);
    while r.chars().count() < width {
        r.push(' ');
    }
    r
}

fn row(name: &str, id: &str, rest: &str) -> String {
    format!("{}{}{}", pad(name, 34), pad(id, 35), rest)
}

fn listing() -> String {
    format!(
        "Name                              Id                                 Version\n\
         -----------------------------------------------------------------------\n\
         {}\n{}\r\n{}\n3 upgrades available.\n",
        row("Git", "Git.Git", "2.40.0 2.41.0 winget"),
        row("Mozilla Firefox", "Mozilla.Firefox", "114.0 115.0 winget"),
        row("7-Zip", "7zip.7zip", "22.01 23.01 winget"),
    )
}

#[test]
fn catalog_holds_marked_rows_in_order() {
    let catalog = build_catalog(&listing(), "winget");
    assert_eq!(catalog.len(), 3);
    assert_eq!(catalog[0].get_identifier(), "Git.Git");
    assert_eq!(catalog[1].get_identifier(), "Mozilla.Firefox");
    assert_eq!(catalog[2].get_identifier(), "7zip.7zip");
    assert_eq!(catalog[2].name, "7-Zip");
}

#[test]
fn catalog_without_marker_is_empty() {
    assert_eq!(build_catalog(&listing(), "choco").len(), 0);
    assert_eq!(build_catalog("", "winget").len(), 0);
}

#[test]
fn catalog_reads_last_line_without_line_ending() {
    let text = row("Git", "Git.Git", "winget");
    let catalog = build_catalog(&text, "winget");
    assert_eq!(catalog.len(), 1);
    assert_eq!(catalog[0].id, "Git.Git");
}

#[test]
fn selection_drives_upgrades_of_chosen_rows() {
    let catalog = build_catalog(&listing(), "winget");
    assert_eq!(catalog.len(), 3);
    let selection = match prompt_step("0,2") {
        PromptStep::Selected(v) => v,
        PromptStep::Retry => panic!("selection refused"),
    };
    let order = upgrade_order(&catalog, &selection);
    assert_eq!(order, vec![0, 2]);
    let targets: Vec<&str> = order.iter().map(|&i| catalog[i].get_identifier()).collect();
    assert_eq!(targets, vec!["Git.Git", "7zip.7zip"]);
    assert!(!order.contains(&1));
}

#[test]
fn one_retry_then_selection() {
    let mut retries = 0;
    let mut result = None;
    for line in ["x\n", "1-1\n"] {
        match prompt_step(line) {
            PromptStep::Retry => retries += 1,
            PromptStep::Selected(v) => {
                result = Some(v);
                break;
            }
        }
    }
    assert_eq!(retries, 1);
    assert_eq!(result, Some(vec![1]));
}

#[test]
fn prompt_takes_blanks_off_the_line() {
    assert_eq!(prompt_step("  3,4 \r\n"), PromptStep::Selected(vec![3, 4]));
    assert_eq!(prompt_step("   \n"), PromptStep::Retry);
}

#[test]
fn selection_past_catalog_is_passed_over() {
    let catalog: Vec<Program> = vec![Program::parse_record("a"), Program::parse_record("b")];
    assert_eq!(upgrade_order(&catalog, &vec![5, 1, 1, 9]), vec![1]);
    assert_eq!(upgrade_order(&catalog, &vec![]), Vec::<usize>::new());
}

#[test]
fn text_helpers() {
    assert_eq!(trimmed("  a b \t"), "a b");
    assert_eq!(remove_char("a…b…", '…'), "ab");
    assert_eq!(chars_of("hé"), vec!['h', 'é']);
}
