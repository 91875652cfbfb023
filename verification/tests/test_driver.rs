use std::collections::{HashMap, VecDeque};

use rst::artifact::Settings;
use rst::error::{ErrorKind, LoadError};
use rst::scan::{DirEntry, EntryKind};
use rst::session::{default_repo_names, load_path_raw, Action, Awaits, Event, PathKind, Session};

struct Tree {
    dirs: HashMap<String, Vec<DirEntry>>,
    files: HashMap<String, String>,
}

impl Tree {
    fn new() -> Tree {
        Tree { dirs: HashMap::new(), files: HashMap::new() }
    }

    fn dir(&mut self, path: &str, subdirs: &[&str], files: &[(&str, &str)]) {
        let mut entries = Vec::new();
        for d in subdirs {
            entries.push(DirEntry { path: d.to_string(), kind: EntryKind::Dir });
        }
        for (name, text) in files {
            entries.push(DirEntry { path: name.to_string(), kind: EntryKind::File });
            self.files.insert(name.to_string(), text.to_string());
        }
        self.dirs.insert(path.to_string(), entries);
    }

    fn kind(&self, path: &str) -> PathKind {
        if self.dirs.contains_key(path) {
            PathKind::Dir
        } else if self.files.contains_key(path) {
            PathKind::File
        } else {
            PathKind::Other
        }
    }
}

fn merged(session: &Session) -> Settings {
    let mut paths: VecDeque<String> = session.settings().paths.clone();
    for (_, fragment) in session.loaded_settings() {
        for p in &fragment.paths {
            paths.push_back(p.clone());
        }
    }
    Settings {
        disabled: session.settings().disabled,
        paths,
        repo_names: session.settings().repo_names.clone(),
        color: session.settings().color,
    }
}

fn texts(session: &Session) -> Vec<String> {
    let artifacts = session.artifacts();
    (0..artifacts.len()).map(|i| artifacts.value_at(i).text.replace("{x}", "filled")).collect()
}

fn run(tree: &Tree, path: &str, listed: &mut Vec<String>) -> (Result<(), LoadError>, Session) {
    let mut session = Session::new();
    let start = Event::Start { path: path.to_string(), kind: tree.kind(path) };
    let mut action = load_path_raw(&mut session, start);
    loop {
        let event = match action {
            Action::ListDir(d) => {
                listed.push(d.clone());
                match tree.dirs.get(&d) {
                    Some(entries) => Event::Listing(entries.clone()),
                    None => Event::ListFailed("no such directory".to_string()),
                }
            }
            Action::ReadFile(f) => match tree.files.get(&f) {
                Some(text) => Event::Text(text.clone()),
                None => Event::ReadFailed("cannot read".to_string()),
            },
            Action::ResolveSettings => Event::Settings(merged(&session)),
            Action::ResolveVariables => Event::Texts(texts(&session)),
            Action::Loaded => return (Ok(()), session),
            Action::Failed(e) => return (Err(e), session),
        };
        action = load_path_raw(&mut session, event);
    }
}

#[test]
fn a_directory_is_loaded() {
    let mut tree = Tree::new();
    tree.dir("root", &["root/sub"], &[("root/a.rsk", "[REQ-a]\ntext = \"see {x}\"\n")]);
    tree.dir("root/sub", &[], &[("root/sub/b.rsk", "[REQ-b]\ntext = \"plain\"\n")]);
    let mut listed = Vec::new();
    let (r, session) = run(&tree, "root", &mut listed);
    r.unwrap();
    assert_eq!(listed, ["root", "root/sub"]);
    assert_eq!(session.awaits(), Awaits::Done);
    assert!(session.loaded_dirs().contains("root"));
    let (artifacts, settings) = session.into_parts();
    assert_eq!(artifacts.len(), 2);
    assert_eq!(artifacts.get("REQ-A").unwrap().text, "see filled");
    assert_eq!(artifacts.get("REQ-B").unwrap().text, "plain");
    assert_eq!(artifacts.get("REQ-A").unwrap().path, "root/a.rsk");
    assert!(settings.paths.is_empty());
    assert!(settings.color);
    assert!(!settings.disabled);
    assert_eq!(settings.repo_names.len(), 3);
}

#[test]
fn the_paths_of_settings_are_loaded_too_each_once() {
    let mut tree = Tree::new();
    tree.dir(
        "root",
        &[],
        &[("root/a.rsk", "[settings]\npaths = [\"extra\", \"root\", \"extra\", \"more\"]\n[REQ-a]\n")],
    );
    tree.dir("extra", &["more"], &[("extra/b.rsk", "[settings]\npaths = [\"more\"]\n[REQ-b]\n")]);
    tree.dir("more", &[], &[("more/c.rsk", "[REQ-c]\n")]);
    let mut listed = Vec::new();
    let (r, session) = run(&tree, "root", &mut listed);
    r.unwrap();
    assert_eq!(listed, ["root", "extra", "more"]);
    assert_eq!(session.artifacts().len(), 3);
    assert_eq!(session.loaded_dirs().len(), 3);
    assert!(session.settings().paths.is_empty());
    assert_eq!(session.loaded_settings().len(), 1);
    assert_eq!(session.loaded_settings()[0].0, "extra/b.rsk");
    assert!(session.loaded_variables().is_empty());
}

#[test]
fn a_single_file_is_loaded() {
    let mut tree = Tree::new();
    tree.files.insert(
        "one.rsk".to_string(),
        "[settings]\npaths = [\"dir\"]\n[globals]\nv = \"1\"\n[REQ-a]\n".to_string(),
    );
    tree.dir("dir", &[], &[("dir/b.rsk", "[REQ-b]\n[globals]\nw = \"2\"\n")]);
    let mut listed = Vec::new();
    let (r, session) = run(&tree, "one.rsk", &mut listed);
    r.unwrap();
    assert_eq!(listed, ["dir"]);
    assert_eq!(session.artifacts().len(), 2);
    assert_eq!(session.loaded_variables().len(), 2);
    assert_eq!(session.loaded_variables()[0].0, "one.rsk");
    assert_eq!(session.loaded_variables()[1].0, "dir/b.rsk");
}

#[test]
fn a_single_file_that_fails() {
    let mut tree = Tree::new();
    tree.files.insert("one.rsk".to_string(), "[REQ-a]\nbogus = 1\n".to_string());
    let mut listed = Vec::new();
    let (r, session) = run(&tree, "one.rsk", &mut listed);
    let e = r.unwrap_err();
    assert_eq!(e.kind, ErrorKind::UnknownAttributes);
    assert_eq!(session.awaits(), Awaits::Done);
    tree.files.insert("bad.rsk".to_string(), "[REQ-a\n".to_string());
    let (r, _) = run(&tree, "bad.rsk", &mut listed);
    let e = r.unwrap_err();
    assert_eq!(e.kind, ErrorKind::Syntax);
    assert!(e.to_string().starts_with("Error loading path bad.rsk: [0:"));
    let mut session = Session::new();
    let start = Event::Start { path: "f.rsk".to_string(), kind: PathKind::File };
    assert!(matches!(load_path_raw(&mut session, start), Action::ReadFile(f) if f == "f.rsk"));
    assert_eq!(session.awaits(), Awaits::RootText);
    match load_path_raw(&mut session, Event::ReadFailed("denied".to_string())) {
        Action::Failed(e) => {
            assert_eq!(e.kind, ErrorKind::Io);
            assert_eq!(e.to_string(), "Error loading path f.rsk: denied");
        }
        other => panic!("{:?}", other),
    }
}

#[test]
fn a_path_that_is_neither_file_nor_directory() {
    let tree = Tree::new();
    let mut listed = Vec::new();
    let (r, session) = run(&tree, "nowhere", &mut listed);
    let e = r.unwrap_err();
    assert_eq!(e.kind, ErrorKind::InvalidPath);
    assert_eq!(e.to_string(), "File is not valid type: nowhere");
    assert!(listed.is_empty());
    assert_eq!(session.awaits(), Awaits::Done);
}

#[test]
fn a_walk_that_fails_fails_the_load() {
    let mut tree = Tree::new();
    tree.dir("root", &[], &[("root/a.rsk", "[REQ-a]\n"), ("root/b.rsk", "[REQ-b\n")]);
    let mut listed = Vec::new();
    let (r, session) = run(&tree, "root", &mut listed);
    let e = r.unwrap_err();
    assert_eq!(e.kind, ErrorKind::LoadFailed);
    assert_eq!(e.to_string(), "Error loading <root>: ERROR: some files failed to load");
    assert_eq!(session.artifacts().len(), 1);
    assert_eq!(session.faults().len(), 1);
    assert_eq!(session.faults()[0].0, "root/b.rsk");
}

#[test]
fn a_directory_of_the_settings_that_cannot_be_listed() {
    let mut tree = Tree::new();
    tree.dir("root", &[], &[("root/a.rsk", "[settings]\npaths = [\"gone\"]\n[REQ-a]\n")]);
    let mut listed = Vec::new();
    let (r, _) = run(&tree, "root", &mut listed);
    let e = r.unwrap_err();
    assert_eq!(e.kind, ErrorKind::Io);
    assert_eq!(e.to_string(), "Error loading <gone>: E001: no such directory");
    assert_eq!(listed, ["root", "gone"]);
}

#[test]
fn a_merge_or_a_resolution_that_fails() {
    let mut tree = Tree::new();
    tree.dir("root", &[], &[("root/a.rsk", "[REQ-a]\n")]);
    let mut session = Session::new();
    let start = Event::Start { path: "root".to_string(), kind: PathKind::Dir };
    assert!(matches!(load_path_raw(&mut session, start), Action::ListDir(_)));
    let listing = Event::Listing(tree.dirs["root"].clone());
    assert!(matches!(load_path_raw(&mut session, listing), Action::ReadFile(_)));
    let text = Event::Text(tree.files["root/a.rsk"].clone());
    assert!(matches!(load_path_raw(&mut session, text), Action::ResolveSettings));
    assert_eq!(session.awaits(), Awaits::Settings);
    match load_path_raw(&mut session, Event::Failed("no repo".to_string())) {
        Action::Failed(e) => {
            assert_eq!(e.kind, ErrorKind::Resolve);
            assert_eq!(e.to_string(), "no repo");
        }
        other => panic!("{:?}", other),
    }
    assert_eq!(session.awaits(), Awaits::Done);
}

#[test]
fn texts_must_match_the_artifacts() {
    let mut session = Session::new();
    let start = Event::Start { path: "root".to_string(), kind: PathKind::Dir };
    assert!(matches!(load_path_raw(&mut session, start), Action::ListDir(_)));
    let entries = vec![DirEntry { path: "root/a.rsk".to_string(), kind: EntryKind::File }];
    assert!(matches!(load_path_raw(&mut session, Event::Listing(entries)), Action::ReadFile(_)));
    let text = Event::Text("[REQ-a]\n[REQ-b]\n".to_string());
    assert!(matches!(load_path_raw(&mut session, text), Action::ResolveSettings));
    let settings = Settings {
        disabled: false,
        paths: VecDeque::new(),
        repo_names: default_repo_names(),
        color: true,
    };
    assert!(matches!(
        load_path_raw(&mut session, Event::Settings(settings)),
        Action::ResolveVariables
    ));
    assert_eq!(session.awaits(), Awaits::Texts);
    match load_path_raw(&mut session, Event::Texts(vec!["only one".to_string()])) {
        Action::Failed(e) => {
            assert_eq!(e.kind, ErrorKind::Resolve);
            assert_eq!(e.to_string(), "the texts do not match the artifacts");
        }
        other => panic!("{:?}", other),
    }
    assert_eq!(session.artifacts().value_at(0).text, "");
}

#[test]
fn a_reply_that_answers_no_request_fails_the_load_step() {
    let mut session = Session::new();
    for event in [
        Event::Enter("d".to_string()),
        Event::Listing(Vec::new()),
        Event::Text("".to_string()),
        Event::Texts(Vec::new()),
        Event::Failed("x".to_string()),
    ] {
        match load_path_raw(&mut session, event) {
            Action::Failed(e) => assert_eq!(e.kind, ErrorKind::Unexpected),
            other => panic!("{:?}", other),
        }
        assert_eq!(session.awaits(), Awaits::Start);
    }
    let start = Event::Start { path: "root".to_string(), kind: PathKind::Dir };
    assert!(matches!(load_path_raw(&mut session, start), Action::ListDir(_)));
    let again = Event::Start { path: "root".to_string(), kind: PathKind::Dir };
    assert!(matches!(load_path_raw(&mut session, again), Action::Failed(_)));
    assert!(matches!(
        load_path_raw(&mut session, Event::Text("".to_string())),
        Action::Failed(_)
    ));
    assert_eq!(session.awaits(), Awaits::Listing);
}

#[test]
fn the_default_repository_markers() {
    let names = default_repo_names();
    assert_eq!(names.len(), 3);
    assert_eq!(names.get(0), ".git");
    assert_eq!(names.get(1), ".hg");
    assert_eq!(names.get(2), ".svn");
    let session = Session::new();
    assert_eq!(session.settings().repo_names.len(), 3);
    assert!(session.settings().color);
    assert_eq!(session.awaits(), Awaits::Start);
}
