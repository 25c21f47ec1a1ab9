use filewatch::cycle::run_cycle;
use filewatch::directory::Directory;
use filewatch::file_list::FileList;
use filewatch::processor::Processor;
use filewatch::settings::apply_overrides;
use filewatch::settings::default_delay;
use filewatch::settings::default_file_list;
use filewatch::settings::default_prefixes;
use filewatch::settings::remove_prefix;
use filewatch::settings::Overrides;
use filewatch::settings::Settings;

fn strings(v: &[&str]) -> Vec<String> {
    v.iter().map(|s| s.to_string()).collect()
}

fn runner() -> Processor {
    Processor {
        command: "run -v".to_string(),
    }
}

fn fresh_list(prefixes: &[&str]) -> FileList {
    let owned = strings(prefixes);
    FileList::load("file_list.txt", &owned, None)
}

#[test]
fn update_reports_new_files_once_each() {
    let mut fl = fresh_list(&[]);
    let candidates = strings(&["a.txt", "b.txt"]);
    let (changed, dispatch) = fl.update(&candidates, &runner());
    assert!(changed);
    let argv = dispatch.expect("a new batch must dispatch");
    assert_eq!(argv, strings(&["run", "-v", "a.txt", "b.txt"]));
}

#[test]
fn update_twice_with_same_list_changes_nothing() {
    let mut fl = fresh_list(&[]);
    let candidates = strings(&["a.txt", "b.txt"]);
    let (first_changed, first_dispatch) = fl.update(&candidates, &runner());
    assert!(first_changed);
    assert!(first_dispatch.is_some());
    let (second_changed, second_dispatch) = fl.update(&candidates, &runner());
    assert!(!second_changed);
    assert!(second_dispatch.is_none());
}

#[test]
fn duplicate_candidate_dispatches_once() {
    let mut fl = fresh_list(&[]);
    let candidates = strings(&["a.txt", "a.txt"]);
    let (changed, dispatch) = fl.update(&candidates, &runner());
    assert!(changed);
    let argv = dispatch.expect("a new batch must dispatch");
    assert_eq!(argv, strings(&["run", "-v", "a.txt"]));
}

#[test]
fn empty_batch_is_no_dispatch() {
    let mut fl = fresh_list(&[]);
    let (changed, dispatch) = fl.update(&Vec::new(), &runner());
    assert!(!changed);
    assert!(dispatch.is_none());
}

#[test]
fn load_missing_storage_is_empty_first_run() {
    let mut fl = fresh_list(&[]);
    assert!(fl.files.is_empty());
    let (changed, _) = fl.update(&strings(&["anything.txt"]), &runner());
    assert!(changed);
}

#[test]
fn known_path_never_redispatched_after_disappearing() {
    let mut fl = fresh_list(&[]);
    let (changed, _) = fl.update(&strings(&["x.txt"]), &runner());
    assert!(changed);
    let (gone_changed, gone_dispatch) = fl.update(&Vec::new(), &runner());
    assert!(!gone_changed);
    assert!(gone_dispatch.is_none());
    let (back_changed, back_dispatch) = fl.update(&strings(&["x.txt"]), &runner());
    assert!(!back_changed);
    assert!(back_dispatch.is_none());
}

#[test]
fn save_orders_by_stripped_key_then_full_path() {
    let mut fl = fresh_list(&["export_"]);
    let candidates = strings(&["/tmp/export_b.csv", "/tmp/a.csv", "/tmp/export_a.csv"]);
    let (changed, _) = fl.update(&candidates, &runner());
    assert!(changed);
    let contents = fl.save();
    assert_eq!(contents, "/tmp/a.csv\n/tmp/export_a.csv\n/tmp/export_b.csv");
}

#[test]
fn save_is_independent_of_insertion_order() {
    let mut first = fresh_list(&["export_"]);
    let mut second = fresh_list(&["export_"]);
    let (_, _) = first.update(
        &strings(&["/tmp/export_b.csv", "/tmp/a.csv", "/tmp/export_a.csv"]),
        &runner(),
    );
    let (_, _) = second.update(
        &strings(&["/tmp/a.csv", "/tmp/export_a.csv", "/tmp/export_b.csv"]),
        &runner(),
    );
    assert_eq!(first.save(), second.save());
}

#[test]
fn save_then_load_round_trips_the_set() {
    let mut fl = fresh_list(&["export_"]);
    let (_, _) = fl.update(
        &strings(&["/tmp/export_b.csv", "/tmp/a.csv", "/tmp/export_a.csv"]),
        &runner(),
    );
    let contents = fl.save();
    let prefixes = strings(&["export_"]);
    let reloaded = FileList::load("file_list.txt", &prefixes, Some(contents.as_str()));
    let mut original = fl.files.clone();
    let mut recovered = reloaded.files.clone();
    original.sort();
    recovered.sort();
    assert_eq!(original, recovered);
}

#[test]
fn load_collapses_duplicates_and_crlf() {
    let prefixes: Vec<String> = Vec::new();
    let fl = FileList::load("list.txt", &prefixes, Some("a.txt\nb.txt\r\nb.txt\na.txt"));
    let mut got = fl.files.clone();
    got.sort();
    assert_eq!(got, strings(&["a.txt", "b.txt"]));
    assert_eq!(fl.file_name, "list.txt");
}

#[test]
fn remove_prefix_strips_every_occurrence_of_each_prefix() {
    let prefixes = strings(&["export_"]);
    assert_eq!(remove_prefix("/tmp/export_a.csv", &prefixes), "a.csv");
    assert_eq!(remove_prefix("export_a_export_b.csv", &prefixes), "a_b.csv");
    assert_eq!(remove_prefix("plain.csv", &prefixes), "plain.csv");
}

#[test]
fn remove_prefix_uses_only_the_final_segment() {
    let prefixes = strings(&["tmp"]);
    assert_eq!(remove_prefix("/tmp/tmp_data.csv", &prefixes), "_data.csv");
    assert_eq!(remove_prefix("dir/", &prefixes), "");
    assert_eq!(remove_prefix("no_slash.txt", &Vec::new()), "no_slash.txt");
}

#[test]
fn processor_splits_template_and_appends_batch() {
    let p = Processor {
        command: "  prog  --flag value ".to_string(),
    };
    assert_eq!(p.prepare_command(), strings(&["prog", "--flag", "value"]));
    let argv = p.process(&strings(&["one.txt", "two.txt"]));
    assert_eq!(
        argv,
        strings(&["prog", "--flag", "value", "one.txt", "two.txt"])
    );
}

#[test]
fn scan_keeps_only_allowed_extensions_recursively() {
    let dir = Directory {
        path: ".".to_string(),
        extensions: strings(&["txt"]),
    };
    let found = dir.filter_files(&strings(&["a.txt", "b.log", "c/d.txt"]));
    assert_eq!(found, strings(&["a.txt", "c/d.txt"]));
}

#[test]
fn extension_needs_a_dot_after_a_name() {
    let dir = Directory {
        path: ".".to_string(),
        extensions: strings(&["txt"]),
    };
    assert!(!dir.matches_extension(".txt"));
    assert!(!dir.matches_extension("plain"));
    assert!(dir.matches_extension("dir.of.files/a.b.txt"));
    assert!(!dir.matches_extension("a.txt/b.log"));
}

#[test]
fn run_cycle_sorts_dispatch_and_persists_on_growth() {
    let mut fl = fresh_list(&["export_"]);
    let p = runner();
    let candidates = strings(&["/tmp/export_b.csv", "/tmp/a.csv", "/tmp/export_a.csv"]);
    let outcome = run_cycle(&mut fl, &p, &candidates);
    let argv = outcome.dispatch.expect("new files must dispatch");
    assert_eq!(
        argv,
        strings(&[
            "run",
            "-v",
            "/tmp/a.csv",
            "/tmp/export_a.csv",
            "/tmp/export_b.csv"
        ])
    );
    let contents = outcome.save_contents.expect("growth must persist");
    assert_eq!(contents, "/tmp/a.csv\n/tmp/export_a.csv\n/tmp/export_b.csv");
    let again = run_cycle(&mut fl, &p, &candidates);
    assert!(again.dispatch.is_none());
    assert!(again.save_contents.is_none());
}

#[test]
fn load_of_empty_contents_is_empty() {
    let prefixes: Vec<String> = Vec::new();
    let fl = FileList::load("list.txt", &prefixes, Some(""));
    assert!(fl.files.is_empty());
}

#[test]
fn empty_prefix_removes_nothing() {
    let prefixes = strings(&[""]);
    assert_eq!(remove_prefix("/tmp/a.txt", &prefixes), "a.txt");
}

#[test]
fn defaults_match_the_documented_configuration() {
    assert_eq!(default_delay(), 5);
    assert_eq!(default_file_list(), "file_list.txt");
    assert!(default_prefixes().is_empty());
}

#[test]
fn overrides_replace_wholesale() {
    let settings = Settings {
        delay: 5,
        directories: strings(&["watched"]),
        command: "run".to_string(),
        extensions: strings(&["txt"]),
        file_list: "file_list.txt".to_string(),
        prefixes: Vec::new(),
    };
    let overrides = Overrides {
        command: Some("other -x".to_string()),
        delay: None,
        directories: strings(&["elsewhere", "more"]),
        extensions: Vec::new(),
        file_list: None,
        prefixes: strings(&["p_"]),
    };
    let merged = apply_overrides(settings, overrides);
    assert_eq!(merged.command, "other -x");
    assert_eq!(merged.delay, 5);
    assert_eq!(merged.directories, strings(&["elsewhere", "more"]));
    assert_eq!(merged.extensions, strings(&["txt"]));
    assert_eq!(merged.file_list, "file_list.txt");
    assert_eq!(merged.prefixes, strings(&["p_"]));
}
