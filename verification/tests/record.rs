use ire_core::experiments::record::{
    create, fence_for, highest_prefix, next_prefix, number_of, render, slugify, FolderEntry,
    NewRecord, RecordArgs,
};

fn args<'a>(name: &'a str, command: &'a str) -> RecordArgs<'a> {
    RecordArgs {
        uuid: "11111111-2222-3333-4444-555555555555",
        name,
        command,
        working_dir: "/tmp/project",
        wake_prompt: "Check whether lr=1e-4 beats the baseline.",
        started_at: "2026-08-11T10:00:00+02:00",
    }
}

fn dir(name: &str) -> FolderEntry {
    FolderEntry { name: Some(name.to_string()), is_dir: true }
}

fn file(name: &str) -> FolderEntry {
    FolderEntry { name: Some(name.to_string()), is_dir: false }
}

#[test]
fn first_experiment_allocates_001() {
    let record = create(&Some(vec![]), args("LR ablation", "echo hi"));
    assert_eq!(record.dir, ".ire/experiments/001-lr-ablation");
    assert_eq!(record.file, ".ire/experiments/001-lr-ablation/EXPERIMENT.md");
}

#[test]
fn allocation_continues_past_existing_dirs_and_gaps() {
    let mut entries = vec![];
    for existing in ["001-first", "004-fourth", "not-numbered"] {
        entries.push(dir(existing));
    }
    // Highest is 004 despite the 002/003 gap, and a loose file is ignored.
    entries.push(file("009-a-file-not-a-dir"));
    let record = create(&Some(entries), args("fifth", "echo hi"));
    assert_eq!(record.dir, ".ire/experiments/005-fifth");
}

#[test]
fn missing_experiments_dir_is_created_for_old_workspaces() {
    let record = create(&None, args("first", "echo hi"));
    assert_eq!(record.name, "001-first");
    assert_eq!(record.dir, ".ire/experiments/001-first");
}

#[test]
fn slugify_normalizes_titles() {
    assert_eq!(slugify("LR Ablation"), "lr-ablation");
    assert_eq!(slugify("  spaced  out  "), "spaced-out");
    assert_eq!(slugify("a/b\\c:d*e?"), "a-b-c-d-e");
    assert_eq!(slugify("__leading and trailing__"), "leading-and-trailing");
    assert_eq!(slugify("!!!"), "experiment");
    assert_eq!(slugify(""), "experiment");
    assert_eq!(slugify("..hidden"), "hidden");
    assert_eq!(slugify(&"x".repeat(100)).len(), 60);
    // A truncation landing on a separator doesn't leave a trailing dash.
    assert!(!slugify(&format!("{} tail", "x".repeat(59))).ends_with('-'));
}

#[test]
fn slugs_are_cut_on_the_word_they_land_in() {
    assert_eq!(slugify(&format!("{} tail", "x".repeat(59))), "x".repeat(59));
    assert_eq!(slugify(&format!("{} tail", "x".repeat(58))), format!("{}-t", "x".repeat(58)));
}

#[test]
fn slugs_keep_ascii_only() {
    assert_eq!(slugify("Überprüfung"), "berpr-fung");
    assert_eq!(slugify("学習率 v2"), "v2");
    assert_eq!(slugify("学習率"), "experiment");
    assert_eq!(slugify("AZaz09@[`{/:"), "azaz09");
}

#[test]
fn slug_of_a_slug_is_itself() {
    for title in ["LR Ablation", "  spaced  out  ", "!!!", "a--b__c", "9 lives"] {
        let slug = slugify(title);
        assert_eq!(slugify(&slug), slug);
    }
}

#[test]
fn record_carries_goal_command_and_shared_identity() {
    let md = create(&None, args("LR ablation", "python run.py --lr 1e-4")).text;

    assert!(md.starts_with("# LR ablation\n"));
    assert!(md.contains("11111111-2222-3333-4444-555555555555"));
    assert!(md.contains("2026-08-11T10:00:00+02:00"));
    assert!(md.contains("/tmp/project"));
    assert!(md.contains("Check whether lr=1e-4 beats the baseline."));
    assert!(md.contains("```sh\npython run.py --lr 1e-4\n```"));
}

#[test]
fn record_text_is_exact() {
    let text = render(&RecordArgs {
        uuid: "u-1",
        name: "  A title \n",
        command: "echo `date`",
        working_dir: "/w",
        wake_prompt: "\tgoal\n",
        started_at: "now",
    });
    assert_eq!(
        text,
        "# A title\n\n- **uuid**: `u-1`\n- **started**: now\n- **working dir**: `/w`\n\n\
         ## Goal & context\n\ngoal\n\n## Command\n\n```sh\necho `date`\n```\n\n---\n\n\
         Artifacts belonging to this experiment — scripts, result files, notes — go in\n\
         this folder. Raw stdout/stderr stay in `.ire/cache/experiments/u-1/`.\n"
    );
}

#[test]
fn command_containing_backticks_cannot_break_the_fence() {
    let command = "echo ```nested``` && echo $(date)";
    let md = create(&None, args("fences", command)).text;
    assert!(md.contains(&format!("````sh\n{command}\n````")));
}

#[test]
fn fences_outgrow_every_run() {
    assert_eq!(fence_for(""), "```");
    assert_eq!(fence_for("a `b` ``c``"), "```");
    assert_eq!(fence_for("```"), "````");
    assert_eq!(fence_for("` `` ````` ```"), "``````");
    assert_eq!(fence_for("````x`````"), "``````");
    for command in ["", "`", "``", "```", "a````b`````", "``x```y````"] {
        assert!(!command.contains(&fence_for(command)));
    }
}

#[test]
fn successive_starts_get_distinct_numbers() {
    let mut entries: Vec<FolderEntry> = vec![];
    let mut prefixes: Vec<String> = vec![];
    for i in 0..8 {
        let name = format!("run {i}");
        let listing = Some(entries);
        let record = create(&listing, args(&name, "echo hi"));
        entries = listing.unwrap();
        prefixes.push(record.dir[".ire/experiments/".len()..][..3].to_string());
        entries.push(dir(&record.name));
    }
    assert_eq!(prefixes, ["001", "002", "003", "004", "005", "006", "007", "008"]);
}

#[test]
fn same_title_twice_gets_two_folders() {
    let NewRecord { name, .. } = create(&None, args("same", "x"));
    let again = create(&Some(vec![dir(&name)]), args("same", "x"));
    assert_eq!(name, "001-same");
    assert_eq!(again.name, "002-same");
}

#[test]
fn folder_names_give_back_their_numbers() {
    assert_eq!(number_of("007-x"), Some(7));
    assert_eq!(number_of("1000-x"), Some(1000));
    assert_eq!(number_of("4294967295-x"), Some(u32::MAX));
    assert_eq!(number_of("4294967296-x"), None);
    assert_eq!(number_of("+5-x"), Some(5));
    assert_eq!(number_of("+-x"), None);
    assert_eq!(number_of("-5-x"), None);
    assert_eq!(number_of("5"), None);
    assert_eq!(number_of(""), None);
    assert_eq!(number_of(" 5-x"), None);
    assert_eq!(number_of("5a-x"), None);
    assert_eq!(number_of("12-3-4"), Some(12));
}

#[test]
fn numbers_widen_past_999() {
    let record = create(&Some(vec![dir("999-last")]), args("next", "x"));
    assert_eq!(record.name, "1000-next");
}

#[test]
fn names_that_are_not_unicode_hold_no_number() {
    let entries = vec![FolderEntry { name: None, is_dir: true }];
    assert_eq!(highest_prefix(&entries), None);
    assert_eq!(next_prefix(&Some(entries)), 1);
}

#[test]
fn deleting_a_folder_below_the_highest_does_not_reissue_its_number() {
    assert_eq!(next_prefix(&Some(vec![dir("001-a"), dir("003-c")])), 4);
    assert_eq!(next_prefix(&Some(vec![dir("003-c")])), 4);
    assert_eq!(highest_prefix(&vec![dir("003-c"), dir("010-d"), dir("002-b")]), Some(10));
}

#[test]
fn folder_names_are_one_path_component() {
    for title in ["a/b", "..", "C:\\x", "\0", "nul\n", "学習率"] {
        let name = create(&None, args(title, "x")).name;
        assert!(name.chars().all(|c| c.is_ascii_lowercase() || c.is_ascii_digit() || c == '-'));
        assert!(name.starts_with("001-") && name.len() > 4);
    }
}

#[test]
fn further_entries_never_lower_the_next_number() {
    assert_eq!(next_prefix(&Some(vec![dir("004-a")])), 5);
    assert_eq!(next_prefix(&Some(vec![dir("004-a"), dir("002-b"), file("900-c")])), 5);
    assert_eq!(next_prefix(&Some(vec![dir("004-a"), dir("017-b")])), 18);
}
