//! Artifacts, settings and variables, and how each is read from a table.

use std::collections::VecDeque;
use vstd::prelude::*;
use crate::document::{parse_toml, syntax_message, toml_document, toml_errors};
use crate::error::{ErrorKind, Failure, LoadError, LoadResult};
use crate::expand::{names_of, parse_names};
use crate::map::StrMap;
use crate::name::{name_of, type_of, ArtName, ArtType, NameSet};
use crate::node::{Node, Table};
use crate::strset::StrSet;
use crate::text::{chars_of, clone_strings, distinct, lemma_views_push, push_char, str_eq, string_of, views};

verus! {

/// A place in a source file.
#[derive(Clone, Debug)]
pub struct Loc {
    /// The file.
    pub path: String,
    /// The position in the file; empty where none is given.
    pub pos: String,
}

impl View for Loc {
    type V = (Seq<char>, Seq<char>);

    open spec fn view(&self) -> (Seq<char>, Seq<char>) {
        (self.path@, self.pos@)
    }
}

/// Whether `s[i]` is the last colon of `s`.
pub open spec fn is_last_colon(s: Seq<char>, i: int) -> bool {
    &&& 0 <= i < s.len()
    &&& s[i] == ':'
    &&& forall|j: int| i < j < s.len() ==> s[j] != ':'
}

/// The place that a string denotes: the file before its last colon and the
/// position behind it; without a colon, the whole string is the file.
pub open spec fn loc_of(s: Seq<char>) -> (Seq<char>, Seq<char>) {
    if exists|i: int| is_last_colon(s, i) {
        let i = choose|i: int| is_last_colon(s, i);
        (s.take(i), s.skip(i + 1))
    } else {
        (s, Seq::empty())
    }
}

impl Loc {
    /// Reads a place from its text.
    pub fn from_str(s: &str) -> (loc: Loc)
        ensures
            loc@ == loc_of(s@),
    {
        let v = chars_of(s);
        let n = v.len();
        let mut i: usize = n;
        while i > 0
            invariant
                i <= n,
                n == v.len(),
                v@ == s@,
                forall|j: int| i <= j < n ==> v@[j] != ':',
            decreases i,
        {
            if v[i - 1] == ':' {
                assert(is_last_colon(v@, i - 1));
                let path = string_of(&v, 0, i - 1);
                let pos = string_of(&v, i, n);
                return Loc { path, pos };
            }
            i -= 1;
        }
        let path = string_of(&v, 0, n);
        assert(v@.subrange(0, n as int) =~= v@);
        Loc { path, pos: String::new() }
    }
}

/// The configuration of a project.
#[derive(Clone, Debug)]
pub struct Settings {
    pub disabled: bool,
    /// The directories that are still to be loaded.
    pub paths: VecDeque<String>,
    /// The names of the directories that mark the root of a repository.
    pub repo_names: StrSet,
    pub color: bool,
}

/// The settings as contracts speak of them.
pub struct SettingsView {
    pub disabled: bool,
    pub paths: Seq<Seq<char>>,
    pub repo_names: Seq<Seq<char>>,
    pub color: bool,
}

impl View for Settings {
    type V = SettingsView;

    open spec fn view(&self) -> SettingsView {
        SettingsView {
            disabled: self.disabled,
            paths: views(self.paths@),
            repo_names: self.repo_names@,
            color: self.color,
        }
    }
}

/// The variables that one file declares.
pub type Variables = StrMap<String>;

/// One tracked item.
#[derive(Clone, Debug)]
pub struct Artifact {
    pub ty: ArtType,
    /// The file that declares the artifact.
    pub path: String,
    pub text: String,
    pub refs: Vec<String>,
    /// The artifacts that this one implements a part of.
    pub partof: NameSet,
    pub loc: Option<Loc>,
    /// The artifacts that implement a part of this one; filled in by linking.
    pub parts: NameSet,
    /// How much of the artifact is implemented, in thousandths; `None` until
    /// it is computed.
    pub completed: Option<u32>,
    /// How much of the artifact is tested, in thousandths; `None` until it is
    /// computed.
    pub tested: Option<u32>,
}

/// An artifact as contracts speak of it.
pub struct ArtifactView {
    pub ty: ArtType,
    pub path: Seq<char>,
    pub text: Seq<char>,
    pub refs: Seq<Seq<char>>,
    pub partof: Seq<Seq<char>>,
    pub loc: Option<(Seq<char>, Seq<char>)>,
    pub parts: Seq<Seq<char>>,
    pub completed: Option<u32>,
    pub tested: Option<u32>,
}

impl View for Artifact {
    type V = ArtifactView;

    open spec fn view(&self) -> ArtifactView {
        ArtifactView {
            ty: self.ty,
            path: self.path@,
            text: self.text@,
            refs: views(self.refs@),
            partof: self.partof@,
            loc: match self.loc {
                Some(l) => Some(l@),
                None => None,
            },
            parts: self.parts@,
            completed: self.completed,
            tested: self.tested,
        }
    }
}

/// The artifacts of a load, each under the normal form of its name.
pub type Artifacts = StrMap<Artifact>;

/// Whether every node of an array is a string.
pub open spec fn is_string_array(a: Seq<Node>) -> bool {
    forall|i: int| 0 <= i < a.len() ==> #[trigger] a[i] is String
}

/// The strings of an array of strings.
pub open spec fn string_items(a: Seq<Node>) -> Seq<Seq<char>> {
    Seq::new(a.len(), |i: int| a[i]->String_0@)
}

/// The list of strings under `attr`: `default` where the table has no such
/// key, nothing where the value is no array of strings.
pub open spec fn vecstr(tbl: Table, attr: Seq<char>, default: Seq<Seq<char>>) -> Option<
    Seq<Seq<char>>,
> {
    match tbl.spec_get(attr) {
        None => Some(default),
        Some(Node::Array(a)) => if is_string_array(a@) {
            Some(string_items(a@))
        } else {
            None
        },
        Some(_) => None,
    }
}

/// The string under `attr`: empty where the table has no such key, nothing
/// where the value is no string.
pub open spec fn attr_str(tbl: Table, attr: Seq<char>) -> Option<Seq<char>> {
    match tbl.spec_get(attr) {
        None => Some(Seq::empty()),
        Some(Node::String(s)) => Some(s@),
        Some(_) => None,
    }
}

/// The boolean under `attr`: false where the table has no such key, nothing
/// where the value is no boolean.
pub open spec fn attr_bool(tbl: Table, attr: Seq<char>) -> Option<bool> {
    match tbl.spec_get(attr) {
        None => Some(false),
        Some(Node::Boolean(b)) => Some(b),
        Some(_) => None,
    }
}

/// The list of strings under `attr` (see `vecstr`).
pub fn get_vecstr(tbl: &Table, attr: &str, default: &Vec<String>) -> (res: Option<Vec<String>>)
    ensures
        match vecstr(*tbl, attr@, views(default@)) {
            Some(items) => res matches Some(v) && views(v@) == items,
            None => res is None,
        },
{
    match tbl.get(attr) {
        None => Some(clone_strings(default)),
        Some(node) => match node {
            Node::Array(a) => {
                let mut out: Vec<String> = Vec::new();
                let mut i: usize = 0;
                while i < a.len()
                    invariant
                        i <= a.len(),
                        tbl.spec_get(attr@) == Some(Node::Array(*a)),
                        forall|j: int| 0 <= j < i ==> #[trigger] a@[j] is String,
                        views(out@) == string_items(a@).take(i as int),
                    decreases a.len() - i,
                {
                    match &a[i] {
                        Node::String(s) => {
                            proof {
                                lemma_views_push(out@, *s);
                            }
                            out.push(s.clone());
                            assert(string_items(a@).take(i + 1) =~= string_items(a@).take(
                                i as int,
                            ).push(s@));
                        },
                        _ => {
                            return None;
                        },
                    }
                    i += 1;
                }
                assert(string_items(a@).take(a.len() as int) =~= string_items(a@));
                Some(out)
            },
            _ => None,
        },
    }
}

/// The string under `attr` (see `attr_str`).
pub fn get_str(tbl: &Table, attr: &str) -> (res: Option<String>)
    ensures
        match attr_str(*tbl, attr@) {
            Some(s) => res matches Some(r) && r@ == s,
            None => res is None,
        },
{
    match tbl.get(attr) {
        None => Some(String::new()),
        Some(node) => match node {
            Node::String(s) => Some(s.clone()),
            _ => None,
        },
    }
}

/// The boolean under `attr` (see `attr_bool`).
pub fn get_bool(tbl: &Table, attr: &str) -> (res: Option<bool>)
    ensures
        res == attr_bool(*tbl, attr@),
{
    match tbl.get(attr) {
        None => Some(false),
        Some(node) => match node {
            Node::Boolean(b) => Some(*b),
            _ => None,
        },
    }
}

/// The error for an attribute of the wrong type.
pub open spec fn invalid_attribute(name: Seq<char>, attr: Seq<char>) -> Failure {
    (ErrorKind::InvalidAttribute, name + " has invalid attribute: "@ + attr)
}

pub(crate) fn invalid_attribute_error(name: &str, attr: &str) -> (e: LoadError)
    ensures
        e@ == invalid_attribute(name@, attr@),
{
    let mut desc = String::from_str(name);
    desc.append(" has invalid attribute: ");
    desc.append(attr);
    LoadError::new(ErrorKind::InvalidAttribute, desc)
}

/// The settings that a table declares. The attributes are read in the order
/// `paths`, `disabled`, `repo_names`, and the first of a wrong type is the
/// error.
pub open spec fn settings_of(tbl: Table) -> Result<SettingsView, Failure> {
    if vecstr(tbl, "paths"@, Seq::empty()) is None {
        Err(invalid_attribute("settings"@, "paths"@))
    } else if attr_bool(tbl, "disabled"@) is None {
        Err(invalid_attribute("settings"@, "disabled"@))
    } else if vecstr(tbl, "repo_names"@, Seq::empty()) is None {
        Err(invalid_attribute("settings"@, "repo_names"@))
    } else {
        Ok(
            SettingsView {
                disabled: attr_bool(tbl, "disabled"@)->0,
                paths: vecstr(tbl, "paths"@, Seq::empty())->0,
                repo_names: distinct(vecstr(tbl, "repo_names"@, Seq::empty())->0),
                color: true,
            },
        )
    }
}

impl Settings {
    /// Reads the settings that a table declares.
    pub fn from_table(tbl: &Table) -> (res: LoadResult<Settings>)
        ensures
            match settings_of(*tbl) {
                Ok(v) => res matches Ok(s) && s@ == v,
                Err(f) => res matches Err(e) && e@ == f,
            },
    {
        let df_vec: Vec<String> = Vec::new();
        assert(views(df_vec@) =~= Seq::<Seq<char>>::empty());
        let str_paths = match get_vecstr(tbl, "paths", &df_vec) {
            Some(v) => v,
            None => {
                return Err(invalid_attribute_error("settings", "paths"));
            },
        };
        let disabled = match get_bool(tbl, "disabled") {
            Some(b) => b,
            None => {
                return Err(invalid_attribute_error("settings", "disabled"));
            },
        };
        let repo_names = match get_vecstr(tbl, "repo_names", &df_vec) {
            Some(v) => v,
            None => {
                return Err(invalid_attribute_error("settings", "repo_names"));
            },
        };
        let mut paths: VecDeque<String> = VecDeque::new();
        let mut i: usize = 0;
        assert(views(paths@) =~= views(str_paths@).take(0));
        while i < str_paths.len()
            invariant
                i <= str_paths.len(),
                views(paths@) == views(str_paths@).take(i as int),
            decreases str_paths.len() - i,
        {
            proof {
                lemma_views_push(paths@, str_paths[i as int]);
            }
            paths.push_back(str_paths[i].clone());
            assert(views(str_paths@).take(i + 1) =~= views(str_paths@).take(i as int).push(
                str_paths[i as int]@,
            ));
            i += 1;
        }
        assert(views(str_paths@).take(str_paths.len() as int) =~= views(str_paths@));
        Ok(Settings { disabled, paths, repo_names: StrSet::from_vec(repo_names), color: true })
    }
}

/// Whether `k` is one of the attributes that an artifact may carry.
pub open spec fn is_artifact_attr(k: Seq<char>) -> bool {
    k == "disabled"@ || k == "text"@ || k == "refs"@ || k == "partof"@ || k == "loc"@
}

fn is_attr(k: &str) -> (r: bool)
    ensures
        r == is_artifact_attr(k@),
{
    str_eq(k, "disabled") || str_eq(k, "text") || str_eq(k, "refs") || str_eq(k, "partof")
        || str_eq(k, "loc")
}

/// The keys that no artifact may carry, in their order.
pub open spec fn unknown_attrs(keys: Seq<Seq<char>>) -> Seq<Seq<char>> {
    keys.filter(|k: Seq<char>| !is_artifact_attr(k))
}

/// A string between double quotes.
pub open spec fn quoted(s: Seq<char>) -> Seq<char> {
    seq!['"'] + s + seq!['"']
}

/// The items, each between double quotes, separated by a comma and a space.
pub open spec fn listing(items: Seq<Seq<char>>) -> Seq<char>
    decreases items.len(),
{
    if items.len() == 0 {
        Seq::empty()
    } else if items.len() == 1 {
        quoted(items[0])
    } else {
        listing(items.drop_last()) + ", "@ + quoted(items.last())
    }
}

/// The error for an artifact with attributes that no artifact may carry.
pub open spec fn unknown_attributes(name: Seq<char>, unknown: Seq<Seq<char>>) -> Failure {
    (
        ErrorKind::UnknownAttributes,
        name + " has invalid attributes: ["@ + listing(unknown) + "]"@,
    )
}

/// The artifact that the table `tbl` declares under the name `name` in the
/// file `path`. Attributes outside the accepted ones are the first error;
/// then the first attribute of a wrong type among `partof`, `loc`, `text`,
/// `refs`; then what the list of `partof` is refused for.
pub open spec fn artifact_of(name: Seq<char>, path: Seq<char>, tbl: Table) -> Result<
    ArtifactView,
    Failure,
> {
    let unknown = unknown_attrs(tbl.keys());
    if unknown.len() > 0 {
        Err(unknown_attributes(name, unknown))
    } else if attr_str(tbl, "partof"@) is None {
        Err(invalid_attribute(name, "partof"@))
    } else if attr_str(tbl, "loc"@) is None {
        Err(invalid_attribute(name, "loc"@))
    } else if attr_str(tbl, "text"@) is None {
        Err(invalid_attribute(name, "text"@))
    } else if vecstr(tbl, "refs"@, Seq::empty()) is None {
        Err(invalid_attribute(name, "refs"@))
    } else {
        match names_of(attr_str(tbl, "partof"@)->0) {
            Err(f) => Err(f),
            Ok(partof) => Ok(
                ArtifactView {
                    ty: type_of(name),
                    path,
                    text: attr_str(tbl, "text"@)->0,
                    refs: vecstr(tbl, "refs"@, Seq::empty())->0,
                    partof,
                    loc: if attr_str(tbl, "loc"@)->0.len() == 0 {
                        None
                    } else {
                        Some(loc_of(attr_str(tbl, "loc"@)->0))
                    },
                    parts: Seq::empty(),
                    completed: None,
                    tested: None,
                },
            ),
        }
    }
}

/// The error for a text that does not hold one artifact.
pub open spec fn not_single_table() -> Failure {
    (ErrorKind::NotATable, "must contain a single table"@)
}

/// The artifact that a table of one entry declares, with its name.
pub open spec fn single_artifact(table: Table) -> Result<(Seq<char>, ArtifactView), Failure> {
    if table.keys().len() != 1 {
        Err(not_single_table())
    } else {
        match name_of(table.keys()[0]) {
            None => Err((ErrorKind::InvalidName, crate::name::invalid_name_message(table.keys()[0]))),
            Some(name) => match table.values()[0] {
                Node::Table(t) => match artifact_of(name, "from_str"@, t) {
                    Ok(a) => Ok((name, a)),
                    Err(f) => Err(f),
                },
                _ => Err(not_single_table()),
            },
        }
    }
}

/// The message that lists the keys of `tbl` that no artifact may carry, or
/// nothing where there is no such key.
fn unknown_listing(tbl: &Table) -> (res: Option<String>)
    ensures
        match res {
            Some(list) => unknown_attrs(tbl.keys()).len() > 0 && list@ == listing(
                unknown_attrs(tbl.keys()),
            ),
            None => unknown_attrs(tbl.keys()).len() == 0,
        },
{
    let n = tbl.len();
    let mut list = String::new();
    let mut count: usize = 0;
    let mut i: usize = 0;
    let ghost keys = tbl.keys();
    let ghost pred = |k: Seq<char>| !is_artifact_attr(k);
    proof {
        reveal(Seq::filter);
        assert(keys.take(0) =~= Seq::<Seq<char>>::empty());
    }
    while i < n
        invariant
            i <= n,
            n == keys.len(),
            keys == tbl.keys(),
            pred == |k: Seq<char>| !is_artifact_attr(k),
            count == keys.take(i as int).filter(pred).len(),
            count <= i,
            list@ == listing(keys.take(i as int).filter(pred)),
        decreases n - i,
    {
        let key = tbl.key_at(i);
        proof {
            reveal(Seq::filter);
            assert(keys.take(i + 1).drop_last() =~= keys.take(i as int));
            assert(keys.take(i + 1).last() == keys[i as int]);
        }
        if !is_attr(key.as_str()) {
            let ghost before = keys.take(i as int).filter(pred);
            let ghost after = keys.take(i + 1).filter(pred);
            assert(after == before.push(key@));
            assert(after.drop_last() =~= before);
            if count > 0 {
                list.append(", ");
            }
            push_char(&mut list, '"');
            list.append(key.as_str());
            push_char(&mut list, '"');
            assert(list@ =~= listing(after));
            count += 1;
        }
        i += 1;
    }
    assert(keys.take(n as int) =~= keys);
    if count > 0 {
        Some(list)
    } else {
        None
    }
}

/// The error for the attributes of `tbl` that no artifact may carry, if it
/// has any.
pub(crate) fn unknown_attributes_error(name: &str, tbl: &Table) -> (res: Option<LoadError>)
    ensures
        match res {
            Some(e) => unknown_attrs(tbl.keys()).len() > 0 && e@ == unknown_attributes(
                name@,
                unknown_attrs(tbl.keys()),
            ),
            None => unknown_attrs(tbl.keys()).len() == 0,
        },
{
    match unknown_listing(tbl) {
        Some(list) => {
            let mut desc = String::from_str(name);
            desc.append(" has invalid attributes: [");
            desc.append(list.as_str());
            desc.append("]");
            Some(LoadError::new(ErrorKind::UnknownAttributes, desc))
        },
        None => None,
    }
}

impl Artifact {
    /// Reads the artifact that `tbl` declares under `name` in the file `path`.
    pub fn from_table(name: &ArtName, path: &str, tbl: &Table) -> (res: LoadResult<Artifact>)
        ensures
            match artifact_of(name@, path@, *tbl) {
                Ok(v) => res matches Ok(a) && a@ == v,
                Err(f) => res matches Err(e) && e@ == f,
            },
    {
        let shown = name.value().as_str();
        match unknown_attributes_error(shown, tbl) {
            Some(e) => {
                return Err(e);
            },
            None => {},
        }
        let partof_str = match get_str(tbl, "partof") {
            Some(s) => s,
            None => {
                return Err(invalid_attribute_error(shown, "partof"));
            },
        };
        let loc_str = match get_str(tbl, "loc") {
            Some(s) => s,
            None => {
                return Err(invalid_attribute_error(shown, "loc"));
            },
        };
        let loc = if loc_str.as_str().is_empty() {
            None
        } else {
            Some(Loc::from_str(loc_str.as_str()))
        };
        let text = match get_str(tbl, "text") {
            Some(s) => s,
            None => {
                return Err(invalid_attribute_error(shown, "text"));
            },
        };
        let df_vec: Vec<String> = Vec::new();
        assert(views(df_vec@) =~= Seq::<Seq<char>>::empty());
        let refs = match get_vecstr(tbl, "refs", &df_vec) {
            Some(v) => v,
            None => {
                return Err(invalid_attribute_error(shown, "refs"));
            },
        };
        let partof = match parse_names(partof_str.as_str()) {
            Ok(p) => p,
            Err(e) => {
                return Err(e);
            },
        };
        Ok(
            Artifact {
                ty: name.get_type(),
                path: String::from_str(path),
                text,
                refs,
                partof,
                loc,
                parts: NameSet::new(),
                completed: None,
                tested: None,
            },
        )
    }

    /// Reads the artifact that a table of one entry declares.
    pub fn from_document(table: &Table) -> (res: LoadResult<(ArtName, Artifact)>)
        ensures
            match single_artifact(*table) {
                Ok((n, v)) => res matches Ok((name, a)) && name@ == n && a@ == v,
                Err(f) => res matches Err(e) && e@ == f,
            },
    {
        if table.len() != 1 {
            return Err(
                LoadError::new(ErrorKind::NotATable, String::from_str("must contain a single table")),
            );
        }
        let name = match ArtName::from_str(table.key_at(0).as_str()) {
            Ok(n) => n,
            Err(e) => {
                return Err(e);
            },
        };
        match table.value_at(0) {
            Node::Table(t) => match Artifact::from_table(&name, "from_str", t) {
                Ok(a) => Ok((name, a)),
                Err(e) => Err(e),
            },
            _ => Err(
                LoadError::new(ErrorKind::NotATable, String::from_str("must contain a single table")),
            ),
        }
    }

    /// Reads the one artifact that a text declares. The text is parsed as
    /// TOML; what the table that it yields declares is `single_artifact`. A
    /// text that is not well-formed gives an error of syntax that lists what
    /// the parser reports.
    pub fn from_str(toml: &str) -> (res: LoadResult<(ArtName, Artifact)>)
        ensures
            match toml_document(toml@) {
                None => res matches Err(e) && e@ == (
                    ErrorKind::Syntax,
                    syntax_message(toml_errors(toml@)),
                ),
                Some(table) => match single_artifact(table) {
                    Ok((n, v)) => res matches Ok((name, a)) && name@ == n && a@ == v,
                    Err(f) => res matches Err(e) && e@ == f,
                },
            },
    {
        let table = match parse_toml(toml) {
            Ok(t) => t,
            Err(e) => {
                return Err(e);
            },
        };
        Artifact::from_document(&table)
    }
}

/// Whether `part` stands somewhere in `whole`.
pub open spec fn occurs_in(part: Seq<char>, whole: Seq<char>) -> bool {
    exists|i: int|
        0 <= i && i + part.len() <= whole.len() && #[trigger] whole.subrange(
            i,
            i + part.len(),
        ) == part
}

/// What stands in a text stands in every text around it.
proof fn lemma_occurs_in_middle(
    part: Seq<char>,
    whole: Seq<char>,
    before: Seq<char>,
    after: Seq<char>,
)
    requires
        occurs_in(part, whole),
    ensures
        occurs_in(part, before + whole + after),
{
    let i = choose|i: int|
        0 <= i && i + part.len() <= whole.len() && #[trigger] whole.subrange(i, i + part.len())
            == part;
    let around = before + whole + after;
    let j = before.len() + i;
    assert(around.subrange(j, j + part.len()) =~= whole.subrange(i, i + part.len()));
}

/// A listing names every one of its items, between double quotes.
proof fn lemma_listing_names(items: Seq<Seq<char>>, j: int)
    requires
        0 <= j < items.len(),
    ensures
        occurs_in(quoted(items[j]), listing(items)),
    decreases items.len(),
{
    let q = quoted(items[j]);
    if items.len() == 1 {
        assert(listing(items).subrange(0int, 0int + q.len()) =~= q);
    } else if j == items.len() - 1 {
        let init = listing(items.drop_last()) + ", "@;
        assert(listing(items) == init + q);
        assert(q.subrange(0int, 0int + q.len()) =~= q);
        lemma_occurs_in_middle(q, q, init, Seq::empty());
        assert(init + q + Seq::<char>::empty() =~= init + q);
    } else {
        lemma_listing_names(items.drop_last(), j);
        let tail = ", "@ + quoted(items.last());
        lemma_occurs_in_middle(q, listing(items.drop_last()), Seq::empty(), tail);
        assert(Seq::<char>::empty() + listing(items.drop_last()) + tail =~= listing(items));
    }
}

/// An artifact that carries an attribute outside the accepted ones is
/// refused, whatever else its table holds. The error lists the keys of the
/// table that are not accepted, those and no others, and its message names
/// each of them between double quotes.
pub proof fn lemma_unknown_attribute_refused(
    name: Seq<char>,
    path: Seq<char>,
    tbl: Table,
    k: Seq<char>,
)
    requires
        tbl.contains_key(k),
        !is_artifact_attr(k),
    ensures
        artifact_of(name, path, tbl) == Err::<ArtifactView, Failure>(
            unknown_attributes(name, unknown_attrs(tbl.keys())),
        ),
        forall|x: Seq<char>| #[trigger]
            unknown_attrs(tbl.keys()).contains(x) <==> tbl.contains_key(x) && !is_artifact_attr(x),
        occurs_in(quoted(k), unknown_attributes(name, unknown_attrs(tbl.keys())).1),
{
    let keys = tbl.keys();
    let pred = |x: Seq<char>| !is_artifact_attr(x);
    let unknown = keys.filter(pred);
    assert forall|x: Seq<char>| #[trigger]
        unknown.contains(x) <==> keys.contains(x) && !is_artifact_attr(x) by {
        if unknown.contains(x) {
            keys.lemma_filter_contains_rev(pred, x);
            let i = choose|i: int| 0 <= i < unknown.len() && unknown[i] == x;
            keys.lemma_filter_pred(pred, i);
        }
        if keys.contains(x) && !is_artifact_attr(x) {
            let i = choose|i: int| 0 <= i < keys.len() && keys[i] == x;
            keys.lemma_filter_contains(pred, i);
        }
    }
    assert(unknown.contains(k));
    let j = choose|j: int| 0 <= j < unknown.len() && unknown[j] == k;
    lemma_listing_names(unknown, j);
    lemma_occurs_in_middle(
        quoted(k),
        listing(unknown),
        name + " has invalid attributes: ["@,
        "]"@,
    );
}

} // verus!
