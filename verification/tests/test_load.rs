use rst::artifact::{get_bool, get_str, get_vecstr, Artifact, Artifacts, Loc, Settings, Variables};
use rst::error::ErrorKind;
use rst::document::parse_toml;
use rst::load::{load_file, load_globals, load_table, load_toml};
use rst::map::StrMap;
use rst::name::{ArtName, ArtType};
use rst::node::{Node, Table};
use rst::text::decimal_string;

fn fresh() -> (Artifacts, Vec<(String, Settings)>, Vec<(String, Variables)>) {
    (StrMap::new(), Vec::new(), Vec::new())
}

fn load(path: &str, text: &str) -> (Result<u64, rst::error::LoadError>, Artifacts) {
    let (mut artifacts, mut settings, mut variables) = fresh();
    let r = load_toml(path, text, &mut artifacts, &mut settings, &mut variables);
    (r, artifacts)
}

#[test]
fn load_toml_reads_artifacts() {
    let (mut artifacts, mut settings, mut variables) = fresh();
    let text = "[REQ-foo]\ntext = \"hello\"\nrefs = [\"a\", \"b\"]\n[SPC-foo]\npartof = \"REQ-[foo, bar]\"\nloc = \"src/lib.rs:12\"\n";
    let n = load_toml("a.rsk", text, &mut artifacts, &mut settings, &mut variables).unwrap();
    assert_eq!(n, 2);
    assert_eq!(artifacts.len(), 2);
    assert!(settings.is_empty());
    assert!(variables.is_empty());
    let req = artifacts.get("REQ-FOO").unwrap();
    assert_eq!(req.ty, ArtType::REQ);
    assert_eq!(req.text, "hello");
    assert_eq!(req.refs, ["a", "b"]);
    assert_eq!(req.path, "a.rsk");
    assert!(req.loc.is_none());
    assert_eq!(req.partof.len(), 0);
    assert_eq!(req.parts.len(), 0);
    assert!(req.completed.is_none());
    assert!(req.tested.is_none());
    let spc = artifacts.get("SPC-FOO").unwrap();
    assert_eq!(spc.ty, ArtType::SPC);
    assert_eq!(spc.text, "");
    assert!(spc.refs.is_empty());
    assert_eq!(spc.partof.len(), 2);
    assert_eq!(spc.partof.get(0).value(), "REQ-FOO");
    assert_eq!(spc.partof.get(1).value(), "REQ-BAR");
    let loc = spc.loc.as_ref().unwrap();
    assert_eq!(loc.path, "src/lib.rs");
    assert_eq!(loc.pos, "12");
}

#[test]
fn load_toml_syntax_error() {
    let (mut artifacts, mut settings, mut variables) = fresh();
    let e = load_toml("a.rsk", "[REQ-foo\n", &mut artifacts, &mut settings, &mut variables)
        .unwrap_err();
    assert_eq!(e.kind, ErrorKind::Syntax);
    assert!(e.desc.starts_with("Error loading path a.rsk: "));
    assert_eq!(artifacts.len(), 0);
    assert!(settings.is_empty());
    assert!(variables.is_empty());
}

#[test]
fn load_toml_keeps_the_order_of_the_keys() {
    let (r, artifacts) = load("a.rsk", "[TST-b]\n[REQ-a]\n[SPC-c]\n");
    assert_eq!(r.unwrap(), 3);
    assert_eq!(artifacts.key_at(0), "REQ-A");
    assert_eq!(artifacts.key_at(1), "SPC-C");
    assert_eq!(artifacts.key_at(2), "TST-B");
}

#[test]
fn from_str_single_table() {
    let (name, art) = Artifact::from_str("[REQ-foo]\ntext = \"hi\"\n").unwrap();
    assert_eq!(name.value(), "REQ-FOO");
    assert_eq!(art.text, "hi");
    assert_eq!(art.path, "from_str");
    let e = Artifact::from_str("[REQ-foo]\n[REQ-bar]\n").unwrap_err();
    assert_eq!(e.kind, ErrorKind::NotATable);
    assert_eq!(e.to_string(), "must contain a single table");
    let e = Artifact::from_str("foo = 1\n").unwrap_err();
    assert_eq!(e.to_string(), "must contain a single table");
    assert_eq!(Artifact::from_str("").unwrap_err().kind, ErrorKind::NotATable);
    assert_eq!(Artifact::from_str("[REQ-foo").unwrap_err().kind, ErrorKind::Syntax);
    assert_eq!(Artifact::from_str("[a_b]\n").unwrap_err().kind, ErrorKind::InvalidName);
}

#[test]
fn unknown_attributes_are_named() {
    let (r, artifacts) = load("a.rsk", "[REQ-foo]\ntext = \"x\"\nother = 2\nbogus = 1\n");
    let e = r.unwrap_err();
    assert_eq!(e.kind, ErrorKind::UnknownAttributes);
    assert_eq!(e.to_string(), "REQ-FOO has invalid attributes: [\"bogus\", \"other\"]");
    assert_eq!(artifacts.len(), 0);
    let e = Artifact::from_str("[REQ-foo]\ndone = true\n").unwrap_err();
    assert_eq!(e.to_string(), "REQ-FOO has invalid attributes: [\"done\"]");
}

#[test]
fn every_accepted_attribute_is_accepted() {
    let text = "[REQ-foo]\ndisabled = false\ntext = \"t\"\nrefs = []\npartof = \"\"\nloc = \"\"\n";
    let (r, artifacts) = load("a.rsk", text);
    assert_eq!(r.unwrap(), 1);
    let a = artifacts.get("REQ-FOO").unwrap();
    assert!(a.loc.is_none());
    assert_eq!(a.partof.len(), 0);
}

#[test]
fn disabled_artifact_is_absent_and_not_counted() {
    let text = "[REQ-a]\ndisabled = true\ntext = 7\npartof = \"[\"\n[REQ-b]\ntext = \"b\"\n";
    let (r, artifacts) = load("a.rsk", text);
    assert_eq!(r.unwrap(), 1);
    assert_eq!(artifacts.len(), 1);
    assert!(!artifacts.contains("REQ-A"));
    assert!(artifacts.contains("REQ-B"));
}

#[test]
fn a_disabled_artifact_with_an_unknown_attribute_is_refused() {
    let (r, artifacts) = load("a.rsk", "[REQ-foo]\ndisabled = true\nbogus = 1\n");
    let e = r.unwrap_err();
    assert_eq!(e.kind, ErrorKind::UnknownAttributes);
    assert!(e.to_string().contains("bogus"));
    assert_eq!(e.to_string(), "REQ-FOO has invalid attributes: [\"bogus\"]");
    assert_eq!(artifacts.len(), 0);
    let mut art: Table = StrMap::new();
    art.insert("disabled".to_string(), Node::Boolean(true));
    art.insert("bogus".to_string(), Node::Integer(1));
    let mut table: Table = StrMap::new();
    table.insert("REQ-foo".to_string(), Node::Table(art));
    let (mut artifacts, mut settings, mut variables) = fresh();
    let e = load_table(&mut table, "a.rsk", &mut artifacts, &mut settings, &mut variables)
        .unwrap_err();
    assert!(e.to_string().contains("bogus"));
    assert_eq!(artifacts.len(), 0);
}

#[test]
fn unknown_attributes_come_before_the_type_of_disabled() {
    let (r, _) = load("a.rsk", "[REQ-foo]\ndisabled = \"yes\"\nbogus = 1\n");
    assert_eq!(r.unwrap_err().kind, ErrorKind::UnknownAttributes);
}

#[test]
fn a_text_that_does_not_parse_is_reported_with_path_and_positions() {
    let (r, artifacts) = load("dir/a.rsk", "[REQ-foo\n");
    let e = r.unwrap_err();
    assert_eq!(e.kind, ErrorKind::Syntax);
    let msg = e.to_string();
    assert!(msg.starts_with("Error loading path dir/a.rsk: [0:"), "{}", msg);
    assert!(msg.ends_with(", "), "{}", msg);
    assert_eq!(artifacts.len(), 0);
    let mut text = "\n".repeat(11);
    text.push_str("a = ");
    let (r, _) = load("b.rsk", &text);
    let msg = r.unwrap_err().to_string();
    assert!(msg.starts_with("Error loading path b.rsk: [11:"), "{}", msg);
    let direct = Artifact::from_str(&text).unwrap_err();
    assert_eq!(direct.kind, ErrorKind::Syntax);
    assert_eq!(msg, format!("Error loading path b.rsk: {}", direct.to_string()));
    assert!(direct.to_string().starts_with("[11:"));
    let parsed = parse_toml(&text).unwrap_err();
    assert_eq!(parsed.to_string(), direct.to_string());
}

#[test]
fn a_file_is_loaded_with_what_reading_it_gave() {
    let (mut artifacts, mut settings, mut variables) = fresh();
    let n = load_file(
        "a.rsk",
        Ok("[REQ-a]\n[globals]\nv = \"1\"\n".to_string()),
        &mut artifacts,
        &mut settings,
        &mut variables,
    )
    .unwrap();
    assert_eq!(n, 1);
    assert_eq!(variables.len(), 1);
    let e = load_file(
        "b.rsk",
        Err("permission denied".to_string()),
        &mut artifacts,
        &mut settings,
        &mut variables,
    )
    .unwrap_err();
    assert_eq!(e.kind, ErrorKind::Io);
    assert_eq!(e.to_string(), "Error loading path b.rsk: permission denied");
    assert_eq!(artifacts.len(), 1);
    assert!(settings.is_empty());
    assert_eq!(variables.len(), 1);
    let e = load_file("c.rsk", Ok("x".to_string()), &mut artifacts, &mut settings, &mut variables)
        .unwrap_err();
    assert_eq!(e.kind, ErrorKind::Syntax);
    assert!(e.to_string().starts_with("Error loading path c.rsk: ["));
}

#[test]
fn numbers_in_decimal() {
    assert_eq!(decimal_string(0), "0");
    assert_eq!(decimal_string(7), "7");
    assert_eq!(decimal_string(10), "10");
    assert_eq!(decimal_string(12345), "12345");
    assert_eq!(decimal_string(usize::MAX), usize::MAX.to_string());
}

#[test]
fn second_declaration_refers_to_the_first_file() {
    let (mut artifacts, mut settings, mut variables) = fresh();
    let n = load_toml("first.rsk", "[REQ-foo]\n", &mut artifacts, &mut settings, &mut variables)
        .unwrap();
    assert_eq!(n, 1);
    let e = load_toml(
        "second.rsk",
        "[REQ-bar]\n[REQ-foo]\n[REQ-zed]\n",
        &mut artifacts,
        &mut settings,
        &mut variables,
    )
    .unwrap_err();
    assert_eq!(e.kind, ErrorKind::Overlap);
    assert_eq!(e.to_string(), "Overlapping key found <REQ-foo> other key at: first.rsk");
    assert_eq!(artifacts.len(), 2);
    assert!(artifacts.contains("REQ-BAR"));
    assert!(!artifacts.contains("REQ-ZED"));
    assert_eq!(artifacts.get("REQ-FOO").unwrap().path, "first.rsk");
}

#[test]
fn a_disabled_declaration_of_a_known_name_is_still_an_overlap() {
    let (mut artifacts, mut settings, mut variables) = fresh();
    load_toml("a.rsk", "[REQ-foo]\n", &mut artifacts, &mut settings, &mut variables).unwrap();
    let e = load_toml(
        "b.rsk",
        "[REQ-foo]\ndisabled = true\n",
        &mut artifacts,
        &mut settings,
        &mut variables,
    )
    .unwrap_err();
    assert_eq!(e.kind, ErrorKind::Overlap);
}

#[test]
fn one_file_cannot_declare_a_name_twice() {
    let (r, artifacts) = load("a.rsk", "[REQ-foo]\n[req-foo]\n");
    let e = r.unwrap_err();
    assert_eq!(e.kind, ErrorKind::Overlap);
    assert_eq!(e.to_string(), "Overlapping key found <req-foo> other key at: a.rsk");
    assert_eq!(artifacts.len(), 1);
}

#[test]
fn disabled_settings_make_the_file_inert() {
    let (mut artifacts, mut settings, mut variables) = fresh();
    let text = "[settings]\ndisabled = true\npaths = [\"x\"]\n[globals]\nrepo = \"bad\"\n[REQ-foo]\nbogus = 1\n";
    let n = load_toml("a.rsk", text, &mut artifacts, &mut settings, &mut variables).unwrap();
    assert_eq!(n, 0);
    assert_eq!(artifacts.len(), 0);
    assert!(settings.is_empty());
    assert!(variables.is_empty());
}

#[test]
fn settings_and_globals_are_recorded() {
    let (mut artifacts, mut settings, mut variables) = fresh();
    let text = "[settings]\npaths = [\"{cwd}/a\", \"b\"]\nrepo_names = [\".x\", \".y\", \".x\"]\n[globals]\nfoo = \"1\"\nbar = \"two\"\n[REQ-foo]\n";
    let n = load_toml("dir/a.rsk", text, &mut artifacts, &mut settings, &mut variables).unwrap();
    assert_eq!(n, 1);
    assert_eq!(settings.len(), 1);
    assert_eq!(settings[0].0, "dir/a.rsk");
    let s = &settings[0].1;
    assert!(!s.disabled);
    assert!(s.color);
    assert_eq!(s.paths, ["{cwd}/a", "b"]);
    assert_eq!(s.repo_names.len(), 2);
    assert_eq!(s.repo_names.get(0), ".x");
    assert_eq!(s.repo_names.get(1), ".y");
    assert_eq!(variables.len(), 1);
    assert_eq!(variables[0].0, "dir/a.rsk");
    let v = &variables[0].1;
    assert_eq!(v.len(), 2);
    assert_eq!(v.get("foo").unwrap(), "1");
    assert_eq!(v.get("bar").unwrap(), "two");
    assert!(!artifacts.contains("SETTINGS"));
    assert!(!artifacts.contains("GLOBALS"));
}

#[test]
fn settings_errors() {
    let (r, _) = load("a.rsk", "settings = 1\n");
    let e = r.unwrap_err();
    assert_eq!(e.kind, ErrorKind::NotATable);
    assert_eq!(e.to_string(), "settings must be a Table");
    let (r, _) = load("a.rsk", "[settings]\npaths = \"x\"\ndisabled = 3\n");
    let e = r.unwrap_err();
    assert_eq!(e.kind, ErrorKind::InvalidAttribute);
    assert_eq!(e.to_string(), "settings has invalid attribute: paths");
    let (r, _) = load("a.rsk", "[settings]\ndisabled = 3\nrepo_names = 1\n");
    assert_eq!(r.unwrap_err().to_string(), "settings has invalid attribute: disabled");
    let (r, _) = load("a.rsk", "[settings]\nrepo_names = [1, 2]\n");
    assert_eq!(r.unwrap_err().to_string(), "settings has invalid attribute: repo_names");
}

#[test]
fn globals_errors() {
    let (r, _) = load("a.rsk", "globals = \"x\"\n");
    let e = r.unwrap_err();
    assert_eq!(e.kind, ErrorKind::NotATable);
    assert_eq!(e.to_string(), "globals must be a Table");
    let (r, _) = load("a.rsk", "[globals]\nrepo = \"x\"\n");
    let e = r.unwrap_err();
    assert_eq!(e.kind, ErrorKind::ReservedGlobal);
    assert_eq!(e.to_string(), "cannot use variables: repo, cwd");
    let (r, _) = load("a.rsk", "[globals]\ncwd = \"x\"\n");
    assert_eq!(r.unwrap_err().kind, ErrorKind::ReservedGlobal);
    let (r, _) = load("a.rsk", "[globals]\nfine = \"x\"\nnum = 1\n");
    let e = r.unwrap_err();
    assert_eq!(e.kind, ErrorKind::InvalidGlobal);
    assert_eq!(e.to_string(), "num global var must be of type str");
}

#[test]
fn settings_stay_recorded_when_the_globals_fail() {
    let (mut artifacts, mut settings, mut variables) = fresh();
    let text = "[settings]\npaths = [\"x\"]\n[globals]\nnum = 1\n[REQ-foo]\n";
    let e = load_toml("a.rsk", text, &mut artifacts, &mut settings, &mut variables).unwrap_err();
    assert_eq!(e.kind, ErrorKind::InvalidGlobal);
    assert_eq!(settings.len(), 1);
    assert!(variables.is_empty());
    assert_eq!(artifacts.len(), 0);
}

#[test]
fn declaration_errors() {
    let (r, _) = load("a.rsk", "foo = 1\n");
    let e = r.unwrap_err();
    assert_eq!(e.kind, ErrorKind::NotATable);
    assert_eq!(e.to_string(), "All top-level values must be a table: foo");
    let (r, _) = load("a.rsk", "[a_b]\n");
    let e = r.unwrap_err();
    assert_eq!(e.kind, ErrorKind::InvalidName);
    assert_eq!(e.to_string(), "invalid artifact name: a_b");
    let (r, _) = load("a.rsk", "[REQ-foo]\ndisabled = \"yes\"\n");
    let e = r.unwrap_err();
    assert_eq!(e.kind, ErrorKind::InvalidAttribute);
    assert_eq!(e.to_string(), "REQ-foo has invalid attribute: disabled");
    let (r, _) = load("a.rsk", "[REQ-foo]\ntext = 1\nrefs = 2\n");
    assert_eq!(r.unwrap_err().to_string(), "REQ-FOO has invalid attribute: text");
    let (r, _) = load("a.rsk", "[REQ-foo]\nrefs = [1]\n");
    assert_eq!(r.unwrap_err().to_string(), "REQ-FOO has invalid attribute: refs");
    let (r, _) = load("a.rsk", "[REQ-foo]\npartof = 1\nloc = 1\ntext = 1\n");
    assert_eq!(r.unwrap_err().to_string(), "REQ-FOO has invalid attribute: partof");
    let (r, _) = load("a.rsk", "[REQ-foo]\nloc = 1\ntext = 1\n");
    assert_eq!(r.unwrap_err().to_string(), "REQ-FOO has invalid attribute: loc");
}

#[test]
fn partof_errors_are_those_of_the_grammar() {
    let (r, _) = load("a.rsk", "[SPC-foo]\npartof = \"REQ-[a, b\"\n");
    let e = r.unwrap_err();
    assert_eq!(e.kind, ErrorKind::UnclosedBracket);
    assert_eq!(e.to_string(), "brackets are not closed");
    let (r, _) = load("a.rsk", "[SPC-foo]\npartof = \"[a]\"\n");
    let e = r.unwrap_err();
    assert_eq!(e.kind, ErrorKind::EmptyPrefix);
    assert_eq!(
        e.to_string(),
        "cannot have '[' after characters ',' or ']' or at start of string"
    );
    let (r, _) = load("a.rsk", "[SPC-foo]\npartof = \"REQ-a, REQ_b\"\n");
    let e = r.unwrap_err();
    assert_eq!(e.kind, ErrorKind::InvalidName);
    assert_eq!(e.to_string(), "invalid artifact name: REQ_b");
}

#[test]
fn blank_partof_is_the_empty_set() {
    let (r, artifacts) = load("a.rsk", "[SPC-foo]\npartof = \"  \\n \"\n");
    assert_eq!(r.unwrap(), 1);
    assert_eq!(artifacts.get("SPC-FOO").unwrap().partof.len(), 0);
}

#[test]
fn an_error_leaves_what_was_loaded_before_it() {
    let (r, artifacts) = load("a.rsk", "[REQ-a]\n[REQ-b]\nbogus = 1\n[REQ-c]\n");
    assert_eq!(r.unwrap_err().kind, ErrorKind::UnknownAttributes);
    assert_eq!(artifacts.len(), 1);
    assert!(artifacts.contains("REQ-A"));
}

#[test]
fn a_text_by_itself_and_as_a_file_give_the_same_artifact() {
    let text = "[SPC-Foo-Bar]\ntext = \"some text\"\nrefs = [\"r1\", \"r2\"]\npartof = \"REQ-foo-[a, b]\"\nloc = \"src/x.rs:3\"\n";
    let (name, direct) = Artifact::from_str(text).unwrap();
    let (r, artifacts) = load("some/file.rsk", text);
    assert_eq!(r.unwrap(), 1);
    assert_eq!(artifacts.len(), 1);
    assert_eq!(artifacts.key_at(0), name.value());
    let loaded = artifacts.value_at(0);
    assert_eq!(loaded.ty, direct.ty);
    assert_eq!(loaded.text, direct.text);
    assert_eq!(loaded.refs, direct.refs);
    assert_eq!(loaded.partof.len(), direct.partof.len());
    for i in 0..direct.partof.len() {
        assert_eq!(loaded.partof.get(i).value(), direct.partof.get(i).value());
    }
    let (a, b) = (loaded.loc.as_ref().unwrap(), direct.loc.as_ref().unwrap());
    assert_eq!(a.path, b.path);
    assert_eq!(a.pos, b.pos);
    assert_eq!(loaded.path, "some/file.rsk");
    assert_eq!(direct.path, "from_str");
}

fn string(s: &str) -> Node {
    Node::String(s.to_string())
}

#[test]
fn load_table_takes_settings_and_globals_out_of_the_table() {
    let mut sets: Table = StrMap::new();
    sets.insert("paths".to_string(), Node::Array(vec![string("p")]));
    let mut globals: Table = StrMap::new();
    globals.insert("v".to_string(), string("val"));
    let mut art: Table = StrMap::new();
    art.insert("text".to_string(), string("hello"));
    let mut table: Table = StrMap::new();
    table.insert("REQ-one".to_string(), Node::Table(art));
    table.insert("globals".to_string(), Node::Table(globals));
    table.insert("settings".to_string(), Node::Table(sets));
    let (mut artifacts, mut settings, mut variables) = fresh();
    let n = load_table(&mut table, "t.rsk", &mut artifacts, &mut settings, &mut variables)
        .unwrap();
    assert_eq!(n, 1);
    assert_eq!(table.len(), 1);
    assert_eq!(table.key_at(0), "REQ-one");
    assert_eq!(settings[0].1.paths, ["p"]);
    assert_eq!(variables[0].1.get("v").unwrap(), "val");
    assert_eq!(artifacts.get("REQ-ONE").unwrap().text, "hello");
}

#[test]
fn load_table_refuses_values_of_other_types() {
    let nodes = vec![
        Node::Integer(1),
        Node::Float(0x3ff0000000000000),
        Node::Boolean(true),
        Node::Datetime("1979-05-27T07:32:00Z".to_string()),
        Node::Array(Vec::new()),
        string("s"),
    ];
    for node in nodes {
        let mut table: Table = StrMap::new();
        table.insert("REQ-x".to_string(), node);
        let (mut artifacts, mut settings, mut variables) = fresh();
        let e = load_table(&mut table, "t.rsk", &mut artifacts, &mut settings, &mut variables)
            .unwrap_err();
        assert_eq!(e.kind, ErrorKind::NotATable);
    }
}

#[test]
fn toml_values_of_every_type_are_read() {
    let text = "[REQ-x]\ntext = 1979-05-27T07:32:00Z\n";
    let (r, _) = load("a.rsk", text);
    assert_eq!(r.unwrap_err().to_string(), "REQ-X has invalid attribute: text");
    let (r, _) = load("a.rsk", "[REQ-x]\ntext = 1.5\n");
    assert_eq!(r.unwrap_err().to_string(), "REQ-X has invalid attribute: text");
    let (r, _) = load("a.rsk", "[REQ-x]\n[REQ-x.text]\na = 1\n");
    assert_eq!(r.unwrap_err().to_string(), "REQ-X has invalid attribute: text");
}

#[test]
fn attribute_getters() {
    let mut t: Table = StrMap::new();
    t.insert("s".to_string(), string("str"));
    t.insert("b".to_string(), Node::Boolean(true));
    t.insert("a".to_string(), Node::Array(vec![string("x"), string("y")]));
    t.insert("m".to_string(), Node::Array(vec![string("x"), Node::Integer(1)]));
    let default = vec!["d".to_string()];
    assert_eq!(get_vecstr(&t, "a", &default).unwrap(), ["x", "y"]);
    assert_eq!(get_vecstr(&t, "none", &default).unwrap(), ["d"]);
    assert!(get_vecstr(&t, "m", &default).is_none());
    assert!(get_vecstr(&t, "s", &default).is_none());
    assert_eq!(get_str(&t, "s").unwrap(), "str");
    assert_eq!(get_str(&t, "none").unwrap(), "");
    assert!(get_str(&t, "b").is_none());
    assert_eq!(get_bool(&t, "b"), Some(true));
    assert_eq!(get_bool(&t, "none"), Some(false));
    assert_eq!(get_bool(&t, "s"), None);
}

#[test]
fn settings_from_table_defaults() {
    let t: Table = StrMap::new();
    let s = Settings::from_table(&t).unwrap();
    assert!(!s.disabled);
    assert!(s.paths.is_empty());
    assert_eq!(s.repo_names.len(), 0);
    assert!(s.color);
}

#[test]
fn globals_of_a_table() {
    let mut t: Table = StrMap::new();
    t.insert("a".to_string(), string("1"));
    t.insert("b".to_string(), string("2"));
    let v = load_globals(&t).unwrap();
    assert_eq!(v.len(), 2);
    assert_eq!(v.key_at(1), "b");
    assert_eq!(v.value_at(1), "2");
}

#[test]
fn artifact_from_table_by_hand() {
    let mut t: Table = StrMap::new();
    t.insert("partof".to_string(), string("REQ-a"));
    t.insert("text".to_string(), string("body"));
    let name = ArtName::from_str("tst-thing").unwrap();
    let a = Artifact::from_table(&name, "p.rsk", &t).unwrap();
    assert_eq!(a.ty, ArtType::TST);
    assert_eq!(a.path, "p.rsk");
    assert_eq!(a.text, "body");
    assert_eq!(a.partof.get(0).value(), "REQ-A");
}

#[test]
fn locations() {
    let l = Loc::from_str("src/lib.rs:12");
    assert_eq!((l.path.as_str(), l.pos.as_str()), ("src/lib.rs", "12"));
    let l = Loc::from_str("C:/x/lib.rs:12:3");
    assert_eq!((l.path.as_str(), l.pos.as_str()), ("C:/x/lib.rs:12", "3"));
    let l = Loc::from_str("src/lib.rs");
    assert_eq!((l.path.as_str(), l.pos.as_str()), ("src/lib.rs", ""));
    let l = Loc::from_str("x:");
    assert_eq!((l.path.as_str(), l.pos.as_str()), ("x", ""));
}

#[test]
fn map_keeps_keys_apart() {
    let mut m: StrMap<u32> = StrMap::new();
    assert_eq!(m.insert("a".to_string(), 1), None);
    assert_eq!(m.insert("b".to_string(), 2), None);
    assert_eq!(m.insert("a".to_string(), 3), Some(1));
    assert_eq!(m.len(), 2);
    assert_eq!(m.get("a"), Some(&3));
    assert_eq!(m.get("b"), Some(&2));
    assert_eq!(m.get("c"), None);
    assert_eq!(m.position("b"), Some(1));
    assert_eq!(m.remove("a"), Some(3));
    assert_eq!(m.remove("a"), None);
    assert_eq!(m.key_at(0), "b");
    let mut v = 9;
    m.swap_value_at(0, &mut v);
    assert_eq!(v, 2);
    assert_eq!(m.get("b"), Some(&9));
}

#[test]
fn odd_texts_are_read_or_refused() {
    let texts = [
        "",
        "\n\n",
        "\u{feff}[REQ-a]\n",
        "[",
        "[]",
        "[[",
        "[[a]]",
        "[a.b]\n[a]\n",
        "[a]\n[a]\n",
        "a = ",
        "a = \"",
        "a = \"\\u00",
        "a = \"\\uD800\"",
        "a = '''x",
        "a = [1, \"x\"]",
        "a = [",
        "a = 99999999999999999999999999",
        "a = 1e999999",
        "a = -",
        "a = 1979-05-27T07:32:00",
        "a = 1.",
        "é = \"ü\"\n",
        "\"\" = 1",
        "a.b = 1",
        "[a]\nb = 1\n[a.b]\n",
        "[[a]]\n[a]\n",
        "# only a comment",
        "a = \"\u{0}\"",
        "\r\n[REQ-a]\r\ntext = \"x\"\r\n",
    ];
    for text in texts {
        let (r, _) = load("a.rsk", text);
        if let Err(e) = r {
            assert!(!e.to_string().is_empty() || e.kind != ErrorKind::Syntax, "{:?}", text);
        }
    }
}
