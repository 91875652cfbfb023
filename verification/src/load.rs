//! Loading of the declarations of one file: its settings, its variables and
//! its artifacts.

use vstd::prelude::*;
use crate::artifact::{
    artifact_of, attr_bool, get_bool, invalid_attribute, invalid_attribute_error,
    is_artifact_attr, lemma_unknown_attribute_refused, settings_of, single_artifact,
    unknown_attributes, unknown_attributes_error, unknown_attrs, Artifact, ArtifactView,
    Artifacts, Settings, SettingsView, Variables,
};
use crate::document::{parse_toml, syntax_message, toml_document, toml_errors};
use crate::error::{ErrorKind, Failure, LoadError, LoadResult};
use crate::map::{lemma_lookup_other, lookup, StrMap};
use crate::name::{invalid_name_message, name_of, ArtName};
use crate::node::{Node, Table};
use crate::text::{lemma_views_push, str_eq, views};

verus! {

/// The variables of one file as contracts speak of them: the names, and the
/// value of each.
pub type VariablesView = (Seq<Seq<char>>, Seq<Seq<char>>);

pub open spec fn variables_view(v: Variables) -> VariablesView {
    (v.keys(), views(v.values()))
}

/// The views of artifacts.
pub open spec fn artifact_views(values: Seq<Artifact>) -> Seq<ArtifactView> {
    Seq::new(values.len(), |i: int| values[i]@)
}

/// The settings that files declared, each with the path of its file.
pub open spec fn settings_fragments(v: Seq<(String, Settings)>) -> Seq<(Seq<char>, SettingsView)> {
    Seq::new(v.len(), |i: int| (v[i].0@, v[i].1@))
}

/// The variables that files declared, each with the path of its file.
pub open spec fn variables_fragments(v: Seq<(String, Variables)>) -> Seq<
    (Seq<char>, VariablesView),
> {
    Seq::new(v.len(), |i: int| (v[i].0@, variables_view(v[i].1)))
}

/// The keys and values without the key `k` and its value.
pub open spec fn without(keys: Seq<Seq<char>>, values: Seq<Node>, k: Seq<char>) -> (
    Seq<Seq<char>>,
    Seq<Node>,
) {
    if keys.contains(k) {
        (keys.remove(keys.index_of(k)), values.remove(keys.index_of(k)))
    } else {
        (keys, values)
    }
}

/// The settings that the table of a file declares under `settings`, if any.
pub open spec fn settings_step(tbl: Table) -> Result<Option<SettingsView>, Failure> {
    match tbl.spec_get("settings"@) {
        None => Ok(None),
        Some(Node::Table(t)) => match settings_of(t) {
            Ok(s) => Ok(Some(s)),
            Err(f) => Err(f),
        },
        Some(_) => Err((ErrorKind::NotATable, "settings must be a Table"@)),
    }
}

/// What is wrong with one global variable, if anything: its name is
/// reserved, or its value is no string.
pub open spec fn global_fault(key: Seq<char>, value: Node) -> Option<Failure> {
    if key == "repo"@ || key == "cwd"@ {
        Some((ErrorKind::ReservedGlobal, "cannot use variables: repo, cwd"@))
    } else if !(value is String) {
        Some((ErrorKind::InvalidGlobal, key + " global var must be of type str"@))
    } else {
        None
    }
}

/// Whether the entry at `i` is the first global variable with a fault.
pub open spec fn is_first_fault(t: Table, i: int) -> bool {
    &&& 0 <= i < t.keys().len()
    &&& global_fault(t.keys()[i], t.values()[i]) is Some
    &&& forall|j: int| 0 <= j < i ==> global_fault(#[trigger] t.keys()[j], t.values()[j]) is None
}

/// The strings of nodes that are strings.
pub open spec fn node_strings(values: Seq<Node>) -> Seq<Seq<char>> {
    Seq::new(values.len(), |i: int| values[i]->String_0@)
}

/// The variables that a table of globals declares: all of them, unless one
/// has a fault; then the first fault is the error.
pub open spec fn variables_of(t: Table) -> Result<VariablesView, Failure> {
    if exists|i: int| is_first_fault(t, i) {
        let i = choose|i: int| is_first_fault(t, i);
        Err(global_fault(t.keys()[i], t.values()[i])->0)
    } else {
        Ok((t.keys(), node_strings(t.values())))
    }
}

/// The variables that the table of a file declares under `globals`, if any.
pub open spec fn globals_step(tbl: Table) -> Result<Option<VariablesView>, Failure> {
    match tbl.spec_get("globals"@) {
        None => Ok(None),
        Some(Node::Table(t)) => match variables_of(t) {
            Ok(v) => Ok(Some(v)),
            Err(f) => Err(f),
        },
        Some(_) => Err((ErrorKind::NotATable, "globals must be a Table"@)),
    }
}

/// The error for a name that is declared a second time.
pub open spec fn overlap(key: Seq<char>, other_path: Seq<char>) -> Failure {
    (ErrorKind::Overlap, "Overlapping key found <"@ + key + "> other key at: "@ + other_path)
}

/// The error for a declaration that is no table.
pub open spec fn not_a_table(key: Seq<char>) -> Failure {
    (ErrorKind::NotATable, "All top-level values must be a table: "@ + key)
}

/// What one declaration adds to the artifacts `names` and `arts`: an
/// artifact with its name, nothing where the declaration is disabled, or an
/// error. The key must be a name and the value a table; the name must be new;
/// the table must carry no attribute outside the accepted ones, disabled or
/// not; `disabled` must be a boolean; then the table must declare an
/// artifact.
pub open spec fn entry_step(
    key: Seq<char>,
    value: Node,
    path: Seq<char>,
    names: Seq<Seq<char>>,
    arts: Seq<ArtifactView>,
) -> Result<Option<(Seq<char>, ArtifactView)>, Failure> {
    match name_of(key) {
        None => Err((ErrorKind::InvalidName, invalid_name_message(key))),
        Some(name) => match value {
            Node::Table(t) => if names.contains(name) {
                Err(overlap(key, arts[names.index_of(name)].path))
            } else if unknown_attrs(t.keys()).len() > 0 {
                Err(unknown_attributes(name, unknown_attrs(t.keys())))
            } else {
                match attr_bool(t, "disabled"@) {
                    None => Err(invalid_attribute(key, "disabled"@)),
                    Some(true) => Ok(None),
                    Some(false) => match artifact_of(name, path, t) {
                        Ok(a) => Ok(Some((name, a))),
                        Err(f) => Err(f),
                    },
                }
            },
            _ => Err(not_a_table(key)),
        },
    }
}

/// The artifacts and the count after the first `n` declarations, read in
/// order on top of the artifacts `names` and `arts`. The first error ends the
/// reading: what was added before it stays.
pub open spec fn load_prefix(
    keys: Seq<Seq<char>>,
    values: Seq<Node>,
    path: Seq<char>,
    names: Seq<Seq<char>>,
    arts: Seq<ArtifactView>,
    n: int,
) -> (Seq<Seq<char>>, Seq<ArtifactView>, Result<nat, Failure>)
    decreases n,
{
    if n <= 0 {
        (names, arts, Ok(0))
    } else {
        let (names1, arts1, r) = load_prefix(keys, values, path, names, arts, n - 1);
        match r {
            Err(f) => (names1, arts1, Err(f)),
            Ok(count) => match entry_step(keys[n - 1], values[n - 1], path, names1, arts1) {
                Err(f) => (names1, arts1, Err(f)),
                Ok(None) => (names1, arts1, Ok(count)),
                Ok(Some((name, a))) => (names1.push(name), arts1.push(a), Ok(count + 1)),
            },
        }
    }
}

/// Once the reading has met an error, further declarations change nothing.
pub proof fn lemma_load_prefix_stays(
    keys: Seq<Seq<char>>,
    values: Seq<Node>,
    path: Seq<char>,
    names: Seq<Seq<char>>,
    arts: Seq<ArtifactView>,
    n: int,
    m: int,
)
    requires
        0 <= n <= m,
        load_prefix(keys, values, path, names, arts, n).2 is Err,
    ensures
        load_prefix(keys, values, path, names, arts, m) == load_prefix(
            keys,
            values,
            path,
            names,
            arts,
            n,
        ),
    decreases m - n,
{
    if n < m {
        lemma_load_prefix_stays(keys, values, path, names, arts, n, m - 1);
    }
}

/// What loading the table of a file does.
pub struct Outcome {
    /// The number of artifacts added, or the error.
    pub result: Result<nat, Failure>,
    /// The keys that are left in the table.
    pub keys: Seq<Seq<char>>,
    /// The values that are left in the table.
    pub values: Seq<Node>,
    /// The names of the artifacts afterwards.
    pub names: Seq<Seq<char>>,
    /// The artifacts afterwards.
    pub arts: Seq<ArtifactView>,
    /// The settings that were recorded for the file.
    pub settings: Option<SettingsView>,
    /// The variables that were recorded for the file.
    pub variables: Option<VariablesView>,
}

/// What loading the table `tbl` of the file `path` does on top of the
/// artifacts `names` and `arts`. The settings are taken out of the table and
/// read first; where they disable the file, nothing else happens. Then the
/// globals are taken out and read, then every other entry is read as the
/// declaration of an artifact.
pub open spec fn load_table_outcome(
    tbl: Table,
    path: Seq<char>,
    names: Seq<Seq<char>>,
    arts: Seq<ArtifactView>,
) -> Outcome {
    let (keys1, values1) = without(tbl.keys(), tbl.values(), "settings"@);
    let (keys2, values2) = without(keys1, values1, "globals"@);
    match settings_step(tbl) {
        Err(f) => Outcome {
            result: Err(f),
            keys: keys1,
            values: values1,
            names,
            arts,
            settings: None,
            variables: None,
        },
        Ok(Some(s)) if s.disabled => Outcome {
            result: Ok(0),
            keys: keys1,
            values: values1,
            names,
            arts,
            settings: None,
            variables: None,
        },
        Ok(s) => match globals_step(tbl) {
            Err(f) => Outcome {
                result: Err(f),
                keys: keys2,
                values: values2,
                names,
                arts,
                settings: s,
                variables: None,
            },
            Ok(v) => {
                let (names2, arts2, r) = load_prefix(
                    keys2,
                    values2,
                    path,
                    names,
                    arts,
                    keys2.len() as int,
                );
                Outcome {
                    result: r,
                    keys: keys2,
                    values: values2,
                    names: names2,
                    arts: arts2,
                    settings: s,
                    variables: v,
                }
            },
        },
    }
}

/// Reading declarations never takes an artifact away, and the count that it
/// gives is the number of artifacts that it added.
pub proof fn lemma_load_prefix_grows(
    keys: Seq<Seq<char>>,
    values: Seq<Node>,
    path: Seq<char>,
    names: Seq<Seq<char>>,
    arts: Seq<ArtifactView>,
    n: int,
)
    ensures
        load_prefix(keys, values, path, names, arts, n).0.len() >= names.len(),
        load_prefix(keys, values, path, names, arts, n).2 matches Ok(c) ==> load_prefix(
            keys,
            values,
            path,
            names,
            arts,
            n,
        ).0.len() == names.len() + c,
    decreases n,
{
    if n > 0 {
        lemma_load_prefix_grows(keys, values, path, names, arts, n - 1);
    }
}

/// Loading a table never takes an artifact away, and the count that it gives
/// is the number of artifacts that it added.
pub proof fn lemma_outcome_grows(
    tbl: Table,
    path: Seq<char>,
    names: Seq<Seq<char>>,
    arts: Seq<ArtifactView>,
)
    ensures
        load_table_outcome(tbl, path, names, arts).names.len() >= names.len(),
        load_table_outcome(tbl, path, names, arts).result matches Ok(c) ==> load_table_outcome(
            tbl,
            path,
            names,
            arts,
        ).names.len() == names.len() + c,
{
    let (keys1, values1) = without(tbl.keys(), tbl.values(), "settings"@);
    let (keys2, values2) = without(keys1, values1, "globals"@);
    lemma_load_prefix_grows(keys2, values2, path, names, arts, keys2.len() as int);
}

/// The fragment that was recorded, as a sequence of at most one.
pub open spec fn recorded<T>(path: Seq<char>, fragment: Option<T>) -> Seq<(Seq<char>, T)> {
    match fragment {
        Some(x) => seq![(path, x)],
        None => Seq::empty(),
    }
}

/// Reads the variables that a table of globals declares.
pub fn load_globals(t: &Table) -> (res: LoadResult<Variables>)
    ensures
        match variables_of(*t) {
            Ok(v) => res matches Ok(vars) && variables_view(vars) == v,
            Err(f) => res matches Err(e) && e@ == f,
        },
{
    let n = t.len();
    let mut lvars: Variables = StrMap::new();
    let mut i: usize = 0;
    assert(t.keys().take(0) =~= Seq::<Seq<char>>::empty());
    assert(views(lvars.values()) =~= node_strings(t.values()).take(0));
    while i < n
        invariant
            i <= n,
            n == t.keys().len(),
            t.wf(),
            lvars.keys() == t.keys().take(i as int),
            views(lvars.values()) == node_strings(t.values()).take(i as int),
            forall|j: int| 0 <= j < i ==> global_fault(#[trigger] t.keys()[j], t.values()[j]) is None,
        decreases n - i,
    {
        let k = t.key_at(i);
        if str_eq(k.as_str(), "repo") || str_eq(k.as_str(), "cwd") {
            assert(is_first_fault(*t, i as int));
            return Err(
                LoadError::new(
                    ErrorKind::ReservedGlobal,
                    String::from_str("cannot use variables: repo, cwd"),
                ),
            );
        }
        match t.value_at(i) {
            Node::String(s) => {
                proof {
                    lemma_views_push(lvars.values(), *s);
                    assert(!t.keys().take(i as int).contains(k@)) by {
                        if t.keys().take(i as int).contains(k@) {
                            let j = choose|j: int|
                                0 <= j < i && t.keys().take(i as int)[j] == k@;
                            assert(t.keys()[j] == t.keys()[i as int]);
                        }
                    }
                }
                lvars.insert(k.clone(), s.clone());
                assert(t.keys().take(i + 1) =~= t.keys().take(i as int).push(k@));
                assert(node_strings(t.values()).take(i + 1) =~= node_strings(t.values()).take(
                    i as int,
                ).push(s@));
            },
            _ => {
                assert(is_first_fault(*t, i as int));
                let mut desc = k.clone();
                desc.append(" global var must be of type str");
                return Err(LoadError::new(ErrorKind::InvalidGlobal, desc));
            },
        }
        i += 1;
    }
    assert(t.keys().take(n as int) =~= t.keys());
    assert(node_strings(t.values()).take(n as int) =~= node_strings(t.values()));
    assert(!exists|i: int| is_first_fault(*t, i));
    Ok(lvars)
}

/// The views of a sequence with one more artifact are the views of the
/// sequence with one more view.
pub proof fn lemma_artifact_views_push(values: Seq<Artifact>, a: Artifact)
    ensures
        artifact_views(values.push(a)) == artifact_views(values).push(a@),
{
    assert(artifact_views(values.push(a)) =~= artifact_views(values).push(a@));
}

/// Loads the declarations of the table of the file `path`: records its
/// settings and its variables, and adds its artifacts to `artifacts`.
/// Returns the number of artifacts added. What happens is
/// `load_table_outcome`; an error leaves in place what was done before it.
pub fn load_table(
    ftable: &mut Table,
    path: &str,
    artifacts: &mut Artifacts,
    settings: &mut Vec<(String, Settings)>,
    variables: &mut Vec<(String, Variables)>,
) -> (res: LoadResult<u64>)
    ensures
        ({
            let o = load_table_outcome(
                *old(ftable),
                path@,
                old(artifacts).keys(),
                artifact_views(old(artifacts).values()),
            );
            &&& match o.result {
                Ok(n) => res matches Ok(c) && c == n,
                Err(f) => res matches Err(e) && e@ == f,
            }
            &&& final(ftable).keys() == o.keys
            &&& final(ftable).values() == o.values
            &&& final(artifacts).keys() == o.names
            &&& artifact_views(final(artifacts).values()) == o.arts
            &&& settings_fragments(final(settings)@) == settings_fragments(old(settings)@)
                + recorded(path@, o.settings)
            &&& variables_fragments(final(variables)@) == variables_fragments(old(variables)@)
                + recorded(path@, o.variables)
        }),
{
    let ghost tbl0 = *ftable;
    let ghost names0 = artifacts.keys();
    let ghost arts0 = artifact_views(artifacts.values());
    let ghost sets0 = settings_fragments(settings@);
    let ghost vars0 = variables_fragments(variables@);
    let ghost o = load_table_outcome(tbl0, path@, names0, arts0);
    proof {
        reveal_strlit("settings");
        reveal_strlit("globals");
        assert("settings"@ != "globals"@) by {
            assert("settings"@.len() == 8);
            assert("globals"@.len() == 7);
        }
        assert(sets0 + Seq::<(Seq<char>, SettingsView)>::empty() =~= sets0);
        assert(vars0 + Seq::<(Seq<char>, VariablesView)>::empty() =~= vars0);
    }
    let n0 = ftable.len();
    let removed = ftable.remove("settings");
    let ghost (keys1, values1) = without(tbl0.keys(), tbl0.values(), "settings"@);
    assert(ftable.keys() == keys1 && ftable.values() == values1);
    proof {
        if tbl0.keys().contains("settings"@) {
            lemma_lookup_other(
                tbl0.keys(),
                tbl0.values(),
                tbl0.keys().index_of("settings"@),
                "globals"@,
            );
        }
        assert(lookup(keys1, values1, "globals"@) == tbl0.spec_get("globals"@));
    }
    match removed {
        None => {},
        Some(node) => match node {
            Node::Table(t) => {
                let lset = match Settings::from_table(&t) {
                    Ok(s) => s,
                    Err(e) => {
                        return Err(e);
                    },
                };
                if lset.disabled {
                    return Ok(0);
                }
                let owner = String::from_str(path);
                proof {
                    assert(settings_fragments(settings@.push((owner, lset))) =~= sets0 + recorded(
                        path@,
                        Some(lset@),
                    ));
                }
                settings.push((owner, lset));
            },
            _ => {
                return Err(
                    LoadError::new(
                        ErrorKind::NotATable,
                        String::from_str("settings must be a Table"),
                    ),
                );
            },
        },
    }
    let ghost s_rec = settings_step(tbl0)->Ok_0;
    assert(settings_fragments(settings@) == sets0 + recorded(path@, s_rec));
    let removed = ftable.remove("globals");
    let ghost (keys2, values2) = without(keys1, values1, "globals"@);
    assert(ftable.keys() == keys2 && ftable.values() == values2);
    match removed {
        None => {},
        Some(node) => match node {
            Node::Table(t) => {
                let lvars = match load_globals(&t) {
                    Ok(v) => v,
                    Err(e) => {
                        return Err(e);
                    },
                };
                let owner = String::from_str(path);
                proof {
                    assert(variables_fragments(variables@.push((owner, lvars))) =~= vars0
                        + recorded(path@, Some(variables_view(lvars))));
                }
                variables.push((owner, lvars));
            },
            _ => {
                return Err(
                    LoadError::new(
                        ErrorKind::NotATable,
                        String::from_str("globals must be a Table"),
                    ),
                );
            },
        },
    }
    let ghost v_rec = globals_step(tbl0)->Ok_0;
    assert(variables_fragments(variables@) == vars0 + recorded(path@, v_rec));
    let n = ftable.len();
    let mut num_loaded: u64 = 0;
    let mut i: usize = 0;
    assert(o.keys == keys2 && o.values == values2 && o.settings == s_rec && o.variables == v_rec);
    while i < n
        invariant
            i <= n,
            n == keys2.len(),
            ftable.keys() == keys2,
            ftable.values() == values2,
            ftable.wf(),
            o == load_table_outcome(
                *old(ftable),
                path@,
                old(artifacts).keys(),
                artifact_views(old(artifacts).values()),
            ),
            o.keys == keys2,
            o.values == values2,
            (o.names, o.arts, o.result) == load_prefix(
                keys2,
                values2,
                path@,
                names0,
                arts0,
                n as int,
            ),
            sets0 == settings_fragments(old(settings)@),
            vars0 == variables_fragments(old(variables)@),
            settings_fragments(settings@) == sets0 + recorded(path@, o.settings),
            variables_fragments(variables@) == vars0 + recorded(path@, o.variables),
            num_loaded <= i,
            load_prefix(keys2, values2, path@, names0, arts0, i as int) == (
                artifacts.keys(),
                artifact_views(artifacts.values()),
                Ok::<nat, Failure>(num_loaded as nat),
            ),
        decreases n - i,
    {
        let ghost names_i = artifacts.keys();
        let ghost arts_i = artifact_views(artifacts.values());
        let ghost step = entry_step(keys2[i as int], values2[i as int], path@, names_i, arts_i);
        proof {
            if step is Err {
                lemma_load_prefix_stays(keys2, values2, path@, names0, arts0, i + 1, n as int);
            }
        }
        let key = ftable.key_at(i);
        let aname = match ArtName::from_str(key.as_str()) {
            Ok(a) => a,
            Err(e) => {
                return Err(e);
            },
        };
        match ftable.value_at(i) {
            Node::Table(art_tbl) => {
                match artifacts.position(aname.value().as_str()) {
                    Some(at) => {
                        let mut desc = String::from_str("Overlapping key found <");
                        desc.append(key.as_str());
                        desc.append("> other key at: ");
                        desc.append(artifacts.value_at(at).path.as_str());
                        return Err(LoadError::new(ErrorKind::Overlap, desc));
                    },
                    None => {},
                }
                match unknown_attributes_error(aname.value().as_str(), art_tbl) {
                    Some(e) => {
                        return Err(e);
                    },
                    None => {},
                }
                let disabled = match get_bool(art_tbl, "disabled") {
                    Some(b) => b,
                    None => {
                        return Err(invalid_attribute_error(key.as_str(), "disabled"));
                    },
                };
                if !disabled {
                    let artifact = match Artifact::from_table(&aname, path, art_tbl) {
                        Ok(a) => a,
                        Err(e) => {
                            return Err(e);
                        },
                    };
                    proof {
                        lemma_artifact_views_push(artifacts.values(), artifact);
                    }
                    artifacts.insert(aname.value().clone(), artifact);
                    num_loaded += 1;
                }
            },
            _ => {
                let mut desc = String::from_str("All top-level values must be a table: ");
                desc.append(key.as_str());
                return Err(LoadError::new(ErrorKind::NotATable, desc));
            },
        }
        i += 1;
    }
    Ok(num_loaded)
}

/// The error of a file that cannot be read.
pub open spec fn read_failed(file: Seq<char>, reason: Seq<char>) -> Failure {
    (ErrorKind::Io, "Error loading path "@ + file + ": "@ + reason)
}

/// The error of a file whose text is not well-formed: it names the file, and
/// lists what the parser reports, each with its line and column.
pub open spec fn syntax_failure(file: Seq<char>, text: Seq<char>) -> Failure {
    (ErrorKind::Syntax, "Error loading path "@ + file + ": "@ + syntax_message(toml_errors(text)))
}

/// What loading a file does.
pub struct FileOutcome {
    /// The number of artifacts added, or the error.
    pub result: Result<nat, Failure>,
    /// The names of the artifacts afterwards.
    pub names: Seq<Seq<char>>,
    /// The artifacts afterwards.
    pub arts: Seq<ArtifactView>,
    /// The settings that were recorded for the file.
    pub settings: Option<SettingsView>,
    /// The variables that were recorded for the file.
    pub variables: Option<VariablesView>,
}

/// What loading the text `text` of the file `path` does on top of the
/// artifacts `names` and `arts`: the table that the text parses to is loaded;
/// a text that is not well-formed changes nothing and is an error of syntax.
pub open spec fn load_toml_outcome(
    path: Seq<char>,
    text: Seq<char>,
    names: Seq<Seq<char>>,
    arts: Seq<ArtifactView>,
) -> FileOutcome {
    match toml_document(text) {
        None => FileOutcome {
            result: Err(syntax_failure(path, text)),
            names,
            arts,
            settings: None,
            variables: None,
        },
        Some(table) => {
            let o = load_table_outcome(table, path, names, arts);
            FileOutcome {
                result: o.result,
                names: o.names,
                arts: o.arts,
                settings: o.settings,
                variables: o.variables,
            }
        },
    }
}

/// What loading the file `path` does, given its text or the reason for which
/// it could not be read: a file that cannot be read changes nothing and the
/// error names it.
pub open spec fn load_file_outcome(
    path: Seq<char>,
    read: Result<Seq<char>, Seq<char>>,
    names: Seq<Seq<char>>,
    arts: Seq<ArtifactView>,
) -> FileOutcome {
    match read {
        Ok(text) => load_toml_outcome(path, text, names, arts),
        Err(reason) => FileOutcome {
            result: Err(read_failed(path, reason)),
            names,
            arts,
            settings: None,
            variables: None,
        },
    }
}

/// What was read of a file, as contracts speak of it.
pub open spec fn read_view(read: Result<String, String>) -> Result<Seq<char>, Seq<char>> {
    match read {
        Ok(text) => Ok(text@),
        Err(reason) => Err(reason@),
    }
}

/// Loading a file never takes an artifact away, and the count that it gives
/// is the number of artifacts that it added.
pub proof fn lemma_file_outcome_grows(
    path: Seq<char>,
    read: Result<Seq<char>, Seq<char>>,
    names: Seq<Seq<char>>,
    arts: Seq<ArtifactView>,
)
    ensures
        load_file_outcome(path, read, names, arts).names.len() >= names.len(),
        load_file_outcome(path, read, names, arts).result matches Ok(c) ==> load_file_outcome(
            path,
            read,
            names,
            arts,
        ).names.len() == names.len() + c,
{
    if let Ok(text) = read {
        if let Some(table) = toml_document(text) {
            lemma_outcome_grows(table, path, names, arts);
        }
    }
}

pub(crate) fn read_failed_error(file: &str, reason: &str) -> (e: LoadError)
    ensures
        e@ == read_failed(file@, reason@),
{
    let mut desc = String::from_str("Error loading path ");
    desc.append(file);
    desc.append(": ");
    desc.append(reason);
    LoadError::new(ErrorKind::Io, desc)
}

/// Loads the declarations that a text holds, as the text of the file `path`.
/// The text is parsed as TOML; where it is not well-formed, nothing changes,
/// and the error names the file and lists the errors of syntax with their
/// positions. Else the table that the parser yields is loaded, as
/// `load_table` does.
pub fn load_toml(
    path: &str,
    text: &str,
    artifacts: &mut Artifacts,
    settings: &mut Vec<(String, Settings)>,
    variables: &mut Vec<(String, Variables)>,
) -> (res: LoadResult<u64>)
    ensures
        ({
            let o = load_toml_outcome(
                path@,
                text@,
                old(artifacts).keys(),
                artifact_views(old(artifacts).values()),
            );
            &&& match o.result {
                Ok(n) => res matches Ok(c) && c == n,
                Err(f) => res matches Err(e) && e@ == f,
            }
            &&& final(artifacts).keys() == o.names
            &&& artifact_views(final(artifacts).values()) == o.arts
            &&& settings_fragments(final(settings)@) == settings_fragments(old(settings)@)
                + recorded(path@, o.settings)
            &&& variables_fragments(final(variables)@) == variables_fragments(old(variables)@)
                + recorded(path@, o.variables)
        }),
{
    let mut table = match parse_toml(text) {
        Ok(t) => t,
        Err(e) => {
            proof {
                assert(settings_fragments(settings@) + Seq::<(Seq<char>, SettingsView)>::empty()
                    =~= settings_fragments(settings@));
                assert(variables_fragments(variables@) + Seq::<
                    (Seq<char>, VariablesView),
                >::empty() =~= variables_fragments(variables@));
            }
            let mut desc = String::from_str("Error loading path ");
            desc.append(path);
            desc.append(": ");
            desc.append(e.desc.as_str());
            return Err(LoadError::new(ErrorKind::Syntax, desc));
        },
    };
    load_table(&mut table, path, artifacts, settings, variables)
}

/// Loads the declarations of the file `path`, given what reading it gave:
/// its text, or the reason for which it could not be read. The text is loaded
/// as `load_toml` does; a file that could not be read changes nothing, and
/// the error names it.
pub fn load_file(
    path: &str,
    read: Result<String, String>,
    artifacts: &mut Artifacts,
    settings: &mut Vec<(String, Settings)>,
    variables: &mut Vec<(String, Variables)>,
) -> (res: LoadResult<u64>)
    ensures
        ({
            let o = load_file_outcome(
                path@,
                read_view(read),
                old(artifacts).keys(),
                artifact_views(old(artifacts).values()),
            );
            &&& match o.result {
                Ok(n) => res matches Ok(c) && c == n,
                Err(f) => res matches Err(e) && e@ == f,
            }
            &&& final(artifacts).keys() == o.names
            &&& artifact_views(final(artifacts).values()) == o.arts
            &&& settings_fragments(final(settings)@) == settings_fragments(old(settings)@)
                + recorded(path@, o.settings)
            &&& variables_fragments(final(variables)@) == variables_fragments(old(variables)@)
                + recorded(path@, o.variables)
        }),
{
    match read {
        Ok(text) => load_toml(path, text.as_str(), artifacts, settings, variables),
        Err(reason) => {
            proof {
                assert(settings_fragments(settings@) + Seq::<(Seq<char>, SettingsView)>::empty()
                    =~= settings_fragments(settings@));
                assert(variables_fragments(variables@) + Seq::<
                    (Seq<char>, VariablesView),
                >::empty() =~= variables_fragments(variables@));
            }
            Err(read_failed_error(path, reason.as_str()))
        },
    }
}

/// Reading declarations keeps the artifacts that were there, in their
/// places, and adds no name twice.
pub proof fn lemma_load_prefix_extends(
    keys: Seq<Seq<char>>,
    values: Seq<Node>,
    path: Seq<char>,
    names: Seq<Seq<char>>,
    arts: Seq<ArtifactView>,
    n: int,
)
    requires
        names.len() == arts.len(),
        names.no_duplicates(),
    ensures
        ({
            let (names1, arts1, r) = load_prefix(keys, values, path, names, arts, n);
            &&& names1.len() == arts1.len()
            &&& names1.no_duplicates()
            &&& names.len() <= names1.len()
            &&& names1.take(names.len() as int) == names
            &&& arts1.take(arts.len() as int) == arts
        }),
    decreases n,
{
    if n <= 0 {
        assert(names.take(names.len() as int) =~= names);
        assert(arts.take(arts.len() as int) =~= arts);
    } else {
        lemma_load_prefix_extends(keys, values, path, names, arts, n - 1);
        let (names0, arts0, r0) = load_prefix(keys, values, path, names, arts, n - 1);
        let (names1, arts1, r1) = load_prefix(keys, values, path, names, arts, n);
        assert(names1.take(names.len() as int) =~= names0.take(names.len() as int));
        assert(arts1.take(arts.len() as int) =~= arts0.take(arts.len() as int));
    }
}

/// A declaration that is disabled adds no artifact and is not counted:
/// reading it changes nothing. (Its attributes must still be among the
/// accepted ones.)
pub proof fn lemma_disabled_skipped(
    keys: Seq<Seq<char>>,
    values: Seq<Node>,
    path: Seq<char>,
    names: Seq<Seq<char>>,
    arts: Seq<ArtifactView>,
    n: int,
)
    requires
        0 <= n < keys.len(),
        keys.len() == values.len(),
        load_prefix(keys, values, path, names, arts, n).2 is Ok,
        name_of(keys[n]) matches Some(name) && !load_prefix(
            keys,
            values,
            path,
            names,
            arts,
            n,
        ).0.contains(name),
        values[n] matches Node::Table(t) && unknown_attrs(t.keys()).len() == 0 && attr_bool(
            t,
            "disabled"@,
        ) == Some(true),
    ensures
        load_prefix(keys, values, path, names, arts, n + 1) == load_prefix(
            keys,
            values,
            path,
            names,
            arts,
            n,
        ),
{
}

/// A declaration with an attribute outside the accepted ones is refused,
/// disabled or not, and the error names the attribute: the reading ends with
/// that error, unless a declaration before it has ended it.
pub proof fn lemma_unknown_attribute_fails(
    keys: Seq<Seq<char>>,
    values: Seq<Node>,
    path: Seq<char>,
    names: Seq<Seq<char>>,
    arts: Seq<ArtifactView>,
    n: int,
    k: Seq<char>,
)
    requires
        0 <= n < keys.len(),
        keys.len() == values.len(),
        name_of(keys[n]) matches Some(name) && !load_prefix(
            keys,
            values,
            path,
            names,
            arts,
            n,
        ).0.contains(name),
        values[n] matches Node::Table(t) && t.contains_key(k),
        !is_artifact_attr(k),
    ensures
        load_prefix(keys, values, path, names, arts, keys.len() as int).2 is Err,
        load_prefix(keys, values, path, names, arts, n).2 is Ok ==> load_prefix(
            keys,
            values,
            path,
            names,
            arts,
            keys.len() as int,
        ).2 == Err::<nat, Failure>(
            unknown_attributes(
                name_of(keys[n])->0,
                unknown_attrs(values[n]->Table_0.keys()),
            ),
        ),
        unknown_attrs(values[n]->Table_0.keys()).contains(k),
{
    let t = values[n]->Table_0;
    lemma_unknown_attribute_refused(name_of(keys[n])->0, path, t, k);
    let unknown = unknown_attrs(t.keys());
    assert(unknown.contains(k));
    let at = choose|i: int| 0 <= i < unknown.len() && unknown[i] == k;
    assert(unknown.len() > 0);
    if load_prefix(keys, values, path, names, arts, n).2 is Err {
        lemma_load_prefix_stays(keys, values, path, names, arts, n, keys.len() as int);
    } else {
        assert(load_prefix(keys, values, path, names, arts, n + 1).2 is Err);
        lemma_load_prefix_stays(keys, values, path, names, arts, n + 1, keys.len() as int);
    }
}

/// A name that is declared a second time fails the reading. Where the
/// declarations before it are read without error, the error is that of the
/// second declaration, and it gives the path of the file that declared the
/// name first.
pub proof fn lemma_second_declaration_fails(
    keys: Seq<Seq<char>>,
    values: Seq<Node>,
    path: Seq<char>,
    names: Seq<Seq<char>>,
    arts: Seq<ArtifactView>,
    i: int,
)
    requires
        names.len() == arts.len(),
        names.no_duplicates(),
        keys.len() == values.len(),
        0 <= i < keys.len(),
        name_of(keys[i]) matches Some(name) && names.contains(name),
        values[i] is Table,
    ensures
        load_prefix(keys, values, path, names, arts, keys.len() as int).2 is Err,
        load_prefix(keys, values, path, names, arts, i).2 is Ok ==> load_prefix(
            keys,
            values,
            path,
            names,
            arts,
            keys.len() as int,
        ).2 == Err::<nat, Failure>(
            overlap(keys[i], arts[names.index_of(name_of(keys[i])->0)].path),
        ),
{
    let name = name_of(keys[i])->0;
    let (names1, arts1, r) = load_prefix(keys, values, path, names, arts, i);
    if r is Err {
        lemma_load_prefix_stays(keys, values, path, names, arts, i, keys.len() as int);
    } else {
        lemma_load_prefix_extends(keys, values, path, names, arts, i);
        let at = names.index_of(name);
        assert(names1.take(names.len() as int)[at] == names1[at]);
        assert(names1[at] == name);
        assert(names1.index_of(name) == at);
        assert(arts1.take(arts.len() as int)[at] == arts1[at]);
        assert(load_prefix(keys, values, path, names, arts, i + 1).2 == Err::<nat, Failure>(
            overlap(keys[i], arts[at].path),
        ));
        lemma_load_prefix_stays(keys, values, path, names, arts, i + 1, keys.len() as int);
    }
}

/// A file that declares a name that another file has declared fails to load,
/// unless its settings disable it: whatever else the file holds, as long as
/// its settings and its globals are read without error.
pub proof fn lemma_redeclared_name_fails(
    tbl: Table,
    path: Seq<char>,
    names: Seq<Seq<char>>,
    arts: Seq<ArtifactView>,
    k: Seq<char>,
)
    requires
        tbl.wf(),
        names.len() == arts.len(),
        names.no_duplicates(),
        settings_step(tbl) matches Ok(s) && !(s matches Some(x) && x.disabled),
        globals_step(tbl) is Ok,
        k != "settings"@,
        k != "globals"@,
        tbl.spec_get(k) matches Some(v) && v is Table,
        name_of(k) matches Some(name) && names.contains(name),
    ensures
        load_table_outcome(tbl, path, names, arts).result is Err,
{
    let (keys1, values1) = without(tbl.keys(), tbl.values(), "settings"@);
    if tbl.keys().contains("settings"@) {
        lemma_lookup_other(tbl.keys(), tbl.values(), tbl.keys().index_of("settings"@), k);
    }
    let (keys2, values2) = without(keys1, values1, "globals"@);
    if keys1.contains("globals"@) {
        lemma_lookup_other(keys1, values1, keys1.index_of("globals"@), k);
    }
    assert(lookup(keys2, values2, k) == tbl.spec_get(k));
    let i = keys2.index_of(k);
    lemma_second_declaration_fails(keys2, values2, path, names, arts, i);
}

/// A file whose settings disable it is inert: nothing of it is loaded or
/// recorded, not even its settings, and nothing of it is an error.
pub proof fn lemma_disabled_file_inert(
    tbl: Table,
    path: Seq<char>,
    names: Seq<Seq<char>>,
    arts: Seq<ArtifactView>,
)
    requires
        settings_step(tbl) matches Ok(Some(s)) && s.disabled,
    ensures
        ({
            let o = load_table_outcome(tbl, path, names, arts);
            &&& o.result == Ok::<nat, Failure>(0)
            &&& o.names == names
            &&& o.arts == arts
            &&& o.settings is None
            &&& o.variables is None
        }),
{
}

/// The artifact with another path.
pub open spec fn at_path(a: ArtifactView, path: Seq<char>) -> ArtifactView {
    ArtifactView {
        ty: a.ty,
        path,
        text: a.text,
        refs: a.refs,
        partof: a.partof,
        loc: a.loc,
        parts: a.parts,
        completed: a.completed,
        tested: a.tested,
    }
}

/// A table of one declaration that is not disabled declares the same
/// artifact read by itself and loaded as the table of a file: the same name,
/// text, references, parents and place, and only the path is that of the
/// file. Where one is refused, so is the other, with the same error.
pub proof fn lemma_single_table_round_trip(tbl: Table, path: Seq<char>)
    requires
        tbl.wf(),
        tbl.keys().len() == 1,
        tbl.keys()[0] != "settings"@,
        tbl.keys()[0] != "globals"@,
        tbl.values()[0] matches Node::Table(t) && attr_bool(t, "disabled"@) == Some(false),
    ensures
        ({
            let o = load_table_outcome(tbl, path, Seq::empty(), Seq::empty());
            match single_artifact(tbl) {
                Ok((name, a)) => o.result == Ok::<nat, Failure>(1) && o.names == seq![name]
                    && o.arts == seq![at_path(a, path)],
                Err(f) => o.result == Err::<nat, Failure>(f) && o.names.len() == 0,
            }
        }),
{
    let keys = tbl.keys();
    let values = tbl.values();
    assert(!keys.contains("settings"@)) by {
        if keys.contains("settings"@) {
            let i = keys.index_of("settings"@);
            assert(i == 0);
        }
    }
    assert(!keys.contains("globals"@)) by {
        if keys.contains("globals"@) {
            let i = keys.index_of("globals"@);
            assert(i == 0);
        }
    }
    let names = Seq::<Seq<char>>::empty();
    let arts = Seq::<ArtifactView>::empty();
    reveal_with_fuel(load_prefix, 2);
    let o = load_table_outcome(tbl, path, names, arts);
    assert(load_prefix(keys, values, path, names, arts, 0) == (names, arts, Ok::<nat, Failure>(0)));
    match single_artifact(tbl) {
        Ok((name, a)) => {
            assert(o.names =~= seq![name]);
            assert(o.arts =~= seq![at_path(a, path)]);
        },
        Err(f) => {},
    }
}

} // verus!
