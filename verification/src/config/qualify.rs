//! Qualification of a freshly loaded config: every profile reference gets an
//! application name (its own application's, where it had none), and every
//! path (a file to load, a command's working directory) becomes relative
//! to the directory of the config file it was loaded from.

use crate::config::inherit::keys_unique;
use crate::config::graph::app_entries;
use crate::config::graph::flatten;
use crate::config::graph::has_unqualified;
use crate::config::graph::parents_of;
use crate::config::name::Name;
use crate::config::name::ProfileReference;
use crate::config::name::RefView;
use crate::config::option_string_view;
use crate::config::copy_side_effects;
use crate::config::Application;
use crate::config::ApplicationView;
use crate::config::Config;
use crate::config::ConfigView;
use crate::config::Profile;
use crate::config::ProfileView;
use crate::config::SourceKindView;
use crate::config::SourceView;
use crate::config::ValueSource;
use crate::config::ValueSourceInner;
use crate::config::ValueSourceKind;
use crate::ordered::application_entries;
use crate::ordered::applications_get_index;
use crate::ordered::applications_insert;
use crate::ordered::applications_len;
use crate::ordered::applications_new;
use crate::ordered::applications_view;
use crate::ordered::profile_entries;
use crate::ordered::profiles_get_index;
use crate::ordered::profiles_insert;
use crate::ordered::profiles_len;
use crate::ordered::profiles_new;
use crate::ordered::profiles_view;
use crate::ordered::reference_entries;
use crate::ordered::references_get_index;
use crate::ordered::references_insert;
use crate::ordered::references_len;
use crate::ordered::references_new;
use crate::ordered::references_view;
use crate::ordered::variable_entries;
use crate::ordered::variables_get_index;
use crate::ordered::variables_insert;
use crate::ordered::variables_len;
use crate::ordered::variables_new;
use crate::ordered::variables_view;
use indexmap::IndexSet;
use indexmap::IndexMap;
use std::path::Path;
use vstd::prelude::*;

verus! {

// ---------------------------------------------------------------------------
// Paths
// ---------------------------------------------------------------------------

/// What `std::path::Path::parent` gives for a path, as text
pub uninterp spec fn path_parent(path: Seq<char>) -> Option<Seq<char>>;

/// `path` adjoined to `base`, as `std::path::Path::join` does it on a Unix
/// target: an absolute `path` (one that starts with `/`) replaces `base`;
/// otherwise `path` follows `base`, with a `/` between them where `base` is
/// non-empty and does not already end with one
pub open spec fn path_join(base: Seq<char>, path: Seq<char>) -> Seq<char> {
    if path.len() > 0 && path[0] == '/' {
        path
    } else if base.len() > 0 && base.last() != '/' {
        base + seq!['/'] + path
    } else {
        base + path
    }
}

/// `Path::parent`: the path without its final component; none for a root or
/// an empty path
#[verifier::external_body]
fn parent_directory(path: &str) -> (r: Option<String>)
    ensures
        option_string_view(r) == path_parent(path@),
{
    match Path::new(path).parent() {
        Some(directory) => Some(directory.to_string_lossy().into_owned()),
        None => None,
    }
}

/// `Path::join`: `path` adjoined to `base`. On a Unix target a path is
/// absolute when it starts with `/`, and `PathBuf::push` (which `join` calls)
/// replaces the path with an absolute one, else adds a separator where the
/// path does not end with one and appends; the text of `&str` arguments
/// converts back without loss.
#[verifier::external_body]
fn join_path(base: &str, path: &str) -> (r: String)
    ensures
        r@ == path_join(base@, path@),
{
    Path::new(base).join(path).to_string_lossy().into_owned()
}

// ---------------------------------------------------------------------------
// Model
// ---------------------------------------------------------------------------

/// A reference with the given application filled in where it had none
pub open spec fn qualify_ref(r: RefView, application: Seq<char>) -> RefView {
    match r.application {
        Some(_) => r,
        None => RefView { application: Some(application), profile: r.profile },
    }
}

/// The members of `s` without repeats, each at its first position
pub open spec fn dedup_refs(s: Seq<RefView>) -> Seq<RefView>
    decreases s.len(),
{
    if s.len() == 0 {
        Seq::empty()
    } else {
        let d = dedup_refs(s.drop_last());
        if d.contains(s.last()) {
            d
        } else {
            d.push(s.last())
        }
    }
}

/// `path` resolved against `directory`, where there is one
pub open spec fn relative_to(path: Seq<char>, directory: Option<Seq<char>>) -> Seq<char> {
    match directory {
        Some(d) => path_join(d, path),
        None => path,
    }
}

/// The value source names a path that is relative to its config file: a
/// file to load, or a working directory for a command
pub open spec fn has_relative_path(kind: SourceKindView) -> bool {
    match kind {
        SourceKindView::File(_) => true,
        SourceKindView::Native { cwd, .. } => cwd is Some,
        SourceKindView::Shell { cwd, .. } => cwd is Some,
        _ => false,
    }
}

/// A value source with its path (a file, or a command's working directory)
/// made relative to `directory`
pub open spec fn qualify_source(s: SourceView, directory: Option<Seq<char>>) -> SourceView {
    match s.kind {
        SourceKindView::File(path) => SourceView {
            kind: SourceKindView::File(relative_to(path, directory)),
            multiple: s.multiple,
            sensitive: s.sensitive,
        },
        SourceKindView::Native { command, cwd: Some(cwd) } => SourceView {
            kind: SourceKindView::Native { command, cwd: Some(relative_to(cwd, directory)) },
            multiple: s.multiple,
            sensitive: s.sensitive,
        },
        SourceKindView::Shell { command, cwd: Some(cwd) } => SourceView {
            kind: SourceKindView::Shell { command, cwd: Some(relative_to(cwd, directory)) },
            multiple: s.multiple,
            sensitive: s.sensitive,
        },
        _ => s,
    }
}

pub open spec fn qualify_variables(v: Seq<(Seq<char>, SourceView)>, directory: Option<Seq<char>>) -> Seq<(Seq<char>, SourceView)> {
    v.map_values(|e: (Seq<char>, SourceView)| (e.0, qualify_source(e.1, directory)))
}

/// A profile of `application` with its parents qualified (a parent named
/// twice after qualification is kept once) and its paths made relative
/// to `directory`
pub open spec fn qualify_profile(p: ProfileView, application: Seq<char>, directory: Option<Seq<char>>) -> ProfileView {
    ProfileView {
        extends: dedup_refs(p.extends.map_values(|r: RefView| qualify_ref(r, application))),
        variables: qualify_variables(p.variables, directory),
        pre_export: p.pre_export,
        post_export: p.post_export,
    }
}

pub open spec fn qualify_application(a: ApplicationView, application: Seq<char>, directory: Option<Seq<char>>) -> ApplicationView {
    a.map_values(|e: (Seq<char>, ProfileView)| (e.0, qualify_profile(e.1, application, directory)))
}

pub open spec fn qualify_config(c: ConfigView, directory: Option<Seq<char>>) -> ConfigView {
    c.map_values(|e: (Seq<char>, ApplicationView)| (e.0, qualify_application(e.1, e.0, directory)))
}

/// Some value source of the config names a path relative to its config file
pub open spec fn has_path_source(c: ConfigView) -> bool {
    exists|a: int, p: int, v: int|
        0 <= a < c.len() && 0 <= p < c[a].1.len() && 0 <= v < c[a].1[p].1.variables.len()
            && has_relative_path((#[trigger] c[a].1[p].1.variables[v]).1.kind)
}

// ---------------------------------------------------------------------------
// Qualification
// ---------------------------------------------------------------------------

/// Qualify a set of parent references of a profile in `application`
fn qualify_extends(extends: &IndexSet<ProfileReference>, application: &Name) -> (r: IndexSet<ProfileReference>)
    ensures
        references_view(r) == dedup_refs(references_view(*extends).map_values(|x: RefView| qualify_ref(x, application@))),
{
    let ghost mapped = references_view(*extends).map_values(|x: RefView| qualify_ref(x, application@));
    let mut r = references_new();
    let n = references_len(extends);
    let mut i: usize = 0;
    assert(references_view(r) =~= dedup_refs(mapped.take(0)));
    while i < n
        invariant
            n == reference_entries(*extends).len(),
            mapped == references_view(*extends).map_values(|x: RefView| qualify_ref(x, application@)),
            i <= n,
            references_view(r) == dedup_refs(mapped.take(i as int)),
        decreases n - i,
    {
        let parent = references_get_index(extends, i).unwrap();
        let qualified = parent.qualify(application);
        assert(qualified@ == mapped[i as int]);
        let ghost before = references_view(r);
        let added = references_insert(&mut r, qualified);
        proof {
            assert(mapped.take(i + 1).drop_last() =~= mapped.take(i as int));
            assert(mapped.take(i + 1).last() == mapped[i as int]);
            if added {
                assert(references_view(r) =~= before.push(mapped[i as int]));
            }
        }
        i = i + 1;
    }
    assert(mapped.take(n as int) =~= mapped);
    r
}

/// `path` resolved against `directory`, where there is one
fn relative_path(path: &String, directory: &Option<String>) -> (r: String)
    ensures
        r@ == relative_to(path@, option_string_view(*directory)),
{
    match directory {
        Some(d) => join_path(d.as_str(), path.as_str()),
        None => path.clone(),
    }
}

/// Qualify one value source
fn qualify_source_exec(source: &ValueSource, directory: &Option<String>) -> (r: ValueSource)
    ensures
        r@ == qualify_source(source@, option_string_view(*directory)),
{
    let kind = match &source.0.kind {
        ValueSourceKind::File { path } => ValueSourceKind::File { path: relative_path(path, directory) },
        ValueSourceKind::NativeCommand { command, cwd: Some(cwd) } => ValueSourceKind::NativeCommand {
            command: command.copy(),
            cwd: Some(relative_path(cwd, directory)),
        },
        ValueSourceKind::ShellCommand { command, cwd: Some(cwd) } => ValueSourceKind::ShellCommand {
            command: command.clone(),
            cwd: Some(relative_path(cwd, directory)),
        },
        other => other.copy(),
    };
    ValueSource(ValueSourceInner { kind, multiple: source.0.multiple.copy(), sensitive: source.0.sensitive })
}

/// The value source names a path relative to its config file
fn names_relative_path(kind: &ValueSourceKind) -> (r: bool)
    ensures
        r == has_relative_path(kind@),
{
    match kind {
        ValueSourceKind::File { .. } => true,
        ValueSourceKind::NativeCommand { cwd, .. } => cwd.is_some(),
        ValueSourceKind::ShellCommand { cwd, .. } => cwd.is_some(),
        _ => false,
    }
}

/// Some variable of the map names a path relative to its config file
fn variables_have_path(variables: &IndexMap<String, ValueSource>) -> (r: bool)
    ensures
        r == exists|v: int| 0 <= v < variables_view(*variables).len() && has_relative_path((#[trigger] variables_view(*variables)[v]).1.kind),
{
    let n = variables_len(variables);
    let mut i: usize = 0;
    while i < n
        invariant
            n == variable_entries(*variables).len(),
            i <= n,
            forall|v: int| 0 <= v < i ==> !(has_relative_path((#[trigger] variables_view(*variables)[v]).1.kind)),
        decreases n - i,
    {
        let (_, source) = variables_get_index(variables, i).unwrap();
        if names_relative_path(&source.0.kind) {
            assert(has_relative_path(variables_view(*variables)[i as int].1.kind));
            return true;
        }
        i = i + 1;
    }
    false
}

/// Qualify a profile of `application`
fn qualify_profile_exec(profile: &Profile, application: &Name, directory: &Option<String>) -> (r: Profile)
    ensures
        r@ == qualify_profile(profile@, application@, option_string_view(*directory)),
{
    let extends = qualify_extends(&profile.extends, application);
    let ghost dir = option_string_view(*directory);
    let mut variables = variables_new();
    let n = variables_len(&profile.variables);
    let mut i: usize = 0;
    while i < n
        invariant
            n == variable_entries(profile.variables).len(),
            i <= n,
            dir == option_string_view(*directory),
            variable_entries(variables).len() == i,
            forall|j: int| 0 <= j < i ==> #[trigger] variables_view(variables)[j] == qualify_variables(profile@.variables, dir)[j],
        decreases n - i,
    {
        let (k, v) = variables_get_index(&profile.variables, i).unwrap();
        assert(profile@.variables[i as int] == (k@, v@));
        let ghost before = variable_entries(variables);
        let ghost before_view = variables_view(variables);
        assert forall|j: int| 0 <= j < before.len() implies #[trigger] before[j].0@ != k@ by {
            assert(variables_view(variables)[j] == qualify_variables(profile@.variables, dir)[j]);
            assert(variable_entries(profile.variables)[j].0@ != k@);
        }
        let q = qualify_source_exec(v, directory);
        let key = k.clone();
        assert(key@ == k@);
        let ghost qv = q;
        variables_insert(&mut variables, key, q);
        proof {
            assert(variable_entries(variables) == before.push((key, qv)));
            assert(variables_view(variables) =~= before_view.push((k@, qualify_source(v@, dir))));
            assert forall|j: int| 0 <= j < i + 1 implies #[trigger] variables_view(variables)[j] == qualify_variables(profile@.variables, dir)[j] by {
                if j < i {
                    assert(before_view[j] == qualify_variables(profile@.variables, dir)[j]);
                }
            }
        }
        i = i + 1;
    }
    assert(variables_view(variables) =~= qualify_variables(profile@.variables, dir));
    let r = Profile {
        extends,
        variables,
        pre_export: copy_side_effects(&profile.pre_export),
        post_export: copy_side_effects(&profile.post_export),
    };
    r
}

impl Config {
    /// Some value source of the config names a path relative to its config file
    pub fn has_path_source(&self) -> (r: bool)
        ensures
            r == has_path_source(self@),
    {
        let ghost c = self@;
        let napps = applications_len(&self.applications);
        let mut a: usize = 0;
        while a < napps
            invariant
                c == self@,
                napps == c.len(),
                a <= napps,
                forall|x: int, p: int, v: int|
                    0 <= x < a && 0 <= p < c[x].1.len() && 0 <= v < c[x].1[p].1.variables.len()
                        ==> !(has_relative_path((#[trigger] c[x].1[p].1.variables[v]).1.kind)),
            decreases napps - a,
        {
            let (_, app) = applications_get_index(&self.applications, a).unwrap();
            assert(c[a as int].1 == app@);
            let np = profiles_len(&app.profiles);
            let mut p: usize = 0;
            while p < np
                invariant
                    np == app@.len(),
                    c == self@,
                    0 <= a < c.len(),
                    c[a as int].1 == app@,
                    p <= np,
                    forall|q: int, v: int| 0 <= q < p && 0 <= v < app@[q].1.variables.len()
                        ==> !(has_relative_path((#[trigger] app@[q].1.variables[v]).1.kind)),
                decreases np - p,
            {
                let (_, profile) = profiles_get_index(&app.profiles, p).unwrap();
                assert(app@[p as int].1 == profile@);
                if variables_have_path(&profile.variables) {
                    let ghost v = choose|v: int| 0 <= v < profile@.variables.len() && has_relative_path((#[trigger] profile@.variables[v]).1.kind);
                    assert(0 <= a < c.len());
                    assert(0 <= p < c[a as int].1.len());
                    assert(c[a as int].1[p as int].1 == profile@);
                    assert(0 <= v < c[a as int].1[p as int].1.variables.len());
                    assert(has_relative_path(c[a as int].1[p as int].1.variables[v].1.kind));
                    let ghost ai = a as int;
                    let ghost pi = p as int;
                    assert(0 <= ai < c.len() && 0 <= pi < c[ai].1.len() && 0 <= v < c[ai].1[pi].1.variables.len()
                        && has_relative_path((c[ai].1[pi].1.variables[v]).1.kind));
                    assert(has_path_source(c));
                    return true;
                }
                p = p + 1;
            }
            a = a + 1;
        }
        false
    }

    /// Qualify the config loaded from the file at `config_path`: each parent
    /// reference without an application gets its profile's application, and
    /// each path (a file, a command's working directory) is resolved against
    /// the directory of `config_path`. A config with such paths needs a
    /// `config_path` that has a parent directory.
    pub fn qualify(&mut self, config_path: &str)
        requires
            path_parent(config_path@) is Some || !has_path_source(old(self)@),
        ensures
            final(self)@ == qualify_config(old(self)@, path_parent(config_path@)),
    {
        let directory = parent_directory(config_path);
        let ghost dir = option_string_view(directory);
        let ghost cv = self@;
        let napps = applications_len(&self.applications);
        let mut applications = applications_new();
        let mut a: usize = 0;
        assert(applications_view(applications) =~= qualify_config(cv.take(0), dir));
        while a < napps
            invariant
                cv == self@,
                napps == cv.len(),
                a <= napps,
                dir == option_string_view(directory),
                application_entries(applications).len() == a,
                applications_view(applications) == qualify_config(cv.take(a as int), dir),
            decreases napps - a,
        {
            let (aname, app) = applications_get_index(&self.applications, a).unwrap();
            assert(cv[a as int] == (aname@, app@));
            let np = profiles_len(&app.profiles);
            let mut profiles = profiles_new();
            let mut p: usize = 0;
            assert(profiles_view(profiles) =~= qualify_application(app@.take(0), aname@, dir));
            while p < np
                invariant
                    np == app@.len(),
                    cv[a as int] == (aname@, app@),
                    0 <= a < cv.len(),
                    p <= np,
                    dir == option_string_view(directory),
                        profile_entries(profiles).len() == p,
                    profiles_view(profiles) == qualify_application(app@.take(p as int), aname@, dir),
                decreases np - p,
            {
                let (pname, profile) = profiles_get_index(&app.profiles, p).unwrap();
                assert(app@[p as int] == (pname@, profile@));
                let ghost before = profiles_view(profiles);
                assert forall|j: int| 0 <= j < profile_entries(profiles).len() implies #[trigger] profile_entries(profiles)[j].0@ != pname@ by {
                    assert(before[j] == qualify_application(app@.take(p as int), aname@, dir)[j]);
                    assert(profile_entries(app.profiles)[j].0@ != pname@);
                }
                let q = qualify_profile_exec(profile, aname, &directory);
                profiles_insert(&mut profiles, pname.clone(), q);
                proof {
                    assert(app@.take(p + 1) =~= app@.take(p as int).push(app@[p as int]));
                    assert(profiles_view(profiles) =~= before.push((pname@, q@)));
                    assert(profiles_view(profiles) =~= qualify_application(app@.take(p + 1), aname@, dir));
                }
                p = p + 1;
            }
            assert(app@.take(np as int) =~= app@);
            let ghost before = applications_view(applications);
            assert forall|j: int| 0 <= j < application_entries(applications).len() implies #[trigger] application_entries(applications)[j].0@ != aname@ by {
                assert(before[j] == qualify_config(cv.take(a as int), dir)[j]);
                assert(application_entries(self.applications)[j].0@ != aname@);
            }
            let new_app = Application { profiles };
            applications_insert(&mut applications, aname.clone(), new_app);
            proof {
                assert(cv.take(a + 1) =~= cv.take(a as int).push(cv[a as int]));
                assert(applications_view(applications) =~= before.push((aname@, new_app@)));
                assert(applications_view(applications) =~= qualify_config(cv.take(a + 1), dir));
            }
            a = a + 1;
        }
        assert(cv.take(napps as int) =~= cv);
        *self = Config { applications };
    }

    /// Qualify the config loaded from the file at `config_path`, where that
    /// is possible: a config with relative paths needs a `config_path` with a
    /// parent directory. Returns whether the config was qualified; if not, it
    /// is unchanged.
    pub fn try_qualify(&mut self, config_path: &str) -> (r: bool)
        ensures
            r == (path_parent(config_path@) is Some || !has_path_source(old(self)@)),
            r ==> final(self)@ == qualify_config(old(self)@, path_parent(config_path@)),
            !r ==> *final(self) == *old(self),
    {
        let directory = parent_directory(config_path);
        if directory.is_none() && self.has_path_source() {
            return false;
        }
        self.qualify(config_path);
        true
    }
}


// ---------------------------------------------------------------------------
// Laws
// ---------------------------------------------------------------------------

/// Qualifying a value source changes nothing but its path: it keeps its
/// `multiple` and `sensitive` settings and its kind; a file path, or a
/// command's working directory where it has one, is resolved against the
/// config file's directory (where there is one); everything else is kept
pub proof fn lemma_qualify_changes_only_paths(s: SourceView, directory: Option<Seq<char>>)
    ensures
        qualify_source(s, directory).multiple == s.multiple,
        qualify_source(s, directory).sensitive == s.sensitive,
        match s.kind {
            SourceKindView::File(p) => qualify_source(s, directory).kind == SourceKindView::File(
                match directory {
                    Some(d) => path_join(d, p),
                    None => p,
                },
            ),
            SourceKindView::Native { command, cwd } => qualify_source(s, directory).kind == SourceKindView::Native {
                command,
                cwd: match cwd {
                    Some(c) => Some(match directory {
                        Some(d) => path_join(d, c),
                        None => c,
                    }),
                    None => None,
                },
            },
            SourceKindView::Shell { command, cwd } => qualify_source(s, directory).kind == SourceKindView::Shell {
                command,
                cwd: match cwd {
                    Some(c) => Some(match directory {
                        Some(d) => path_join(d, c),
                        None => c,
                    }),
                    None => None,
                },
            },
            _ => qualify_source(s, directory).kind == s.kind,
        },
{
}

/// Qualifying a config keeps its applications, profiles and variables, by
/// name and position, and each variable's `multiple` and `sensitive`
/// settings; each variable's source is qualified
pub proof fn lemma_qualify_config_keeps_variables(c: ConfigView, directory: Option<Seq<char>>, a: int, p: int, v: int)
    requires
        0 <= a < c.len(),
        0 <= p < c[a].1.len(),
        0 <= v < c[a].1[p].1.variables.len(),
    ensures
        qualify_config(c, directory).len() == c.len(),
        qualify_config(c, directory)[a].0 == c[a].0,
        qualify_config(c, directory)[a].1.len() == c[a].1.len(),
        qualify_config(c, directory)[a].1[p].0 == c[a].1[p].0,
        qualify_config(c, directory)[a].1[p].1.variables.len() == c[a].1[p].1.variables.len(),
        qualify_config(c, directory)[a].1[p].1.variables[v].0 == c[a].1[p].1.variables[v].0,
        qualify_config(c, directory)[a].1[p].1.variables[v].1 == qualify_source(c[a].1[p].1.variables[v].1, directory),
        qualify_config(c, directory)[a].1[p].1.variables[v].1.multiple == c[a].1[p].1.variables[v].1.multiple,
        qualify_config(c, directory)[a].1[p].1.variables[v].1.sensitive == c[a].1[p].1.variables[v].1.sensitive,
        qualify_config(c, directory)[a].1[p].1.pre_export == c[a].1[p].1.pre_export,
        qualify_config(c, directory)[a].1[p].1.post_export == c[a].1[p].1.post_export,
{
    lemma_qualify_changes_only_paths(c[a].1[p].1.variables[v].1, directory);
}

/// Every member of the reference list has an application
pub open spec fn all_qualified(refs: Seq<RefView>) -> bool {
    forall|j: int| 0 <= j < refs.len() ==> (#[trigger] refs[j]).application is Some
}

proof fn lemma_dedup_qualified(s: Seq<RefView>)
    requires
        all_qualified(s),
    ensures
        all_qualified(dedup_refs(s)),
    decreases s.len(),
{
    if s.len() > 0 {
        assert(all_qualified(s.drop_last())) by {
            assert forall|j: int| 0 <= j < s.drop_last().len() implies (#[trigger] s.drop_last()[j]).application is Some by {
                assert(s.drop_last()[j] == s[j]);
            }
        }
        lemma_dedup_qualified(s.drop_last());
        assert(s.last() == s[s.len() - 1]);
    }
}

proof fn lemma_qualify_profile_qualified(p: ProfileView, application: Seq<char>, directory: Option<Seq<char>>)
    ensures
        all_qualified(qualify_profile(p, application, directory).extends),
{
    let mapped = p.extends.map_values(|r: RefView| qualify_ref(r, application));
    assert(all_qualified(mapped));
    lemma_dedup_qualified(mapped);
}

/// After qualification every parent reference names its application:
/// inheritance never finds an unqualified parent in a qualified config.
pub proof fn lemma_qualified_config_has_no_unqualified(c: ConfigView, directory: Option<Seq<char>>)
    ensures
        !has_unqualified(flatten(qualify_config(c, directory))),
    decreases c.len(),
{
    let qc = qualify_config(c, directory);
    if c.len() > 0 {
        let d = c.drop_last();
        assert(qc.drop_last() =~= qualify_config(d, directory));
        lemma_qualified_config_has_no_unqualified(d, directory);
        let f = flatten(qc.drop_last());
        let last = qc.last();
        let e = app_entries(last.0, last.1);
        assert(flatten(qc) == f + e);
        assert(last == (c.last().0, qualify_application(c.last().1, c.last().0, directory)));
        assert forall|i: int, k: int| 0 <= i < flatten(qc).len() && 0 <= k < parents_of(flatten(qc), i).len()
            implies (#[trigger] parents_of(flatten(qc), i)[k]).application is Some by {
            if i < f.len() {
                assert(flatten(qc)[i] == f[i]);
                if (parents_of(f, i)[k]).application is None {
                    assert(has_unqualified(f));
                }
            } else {
                let q = i - f.len();
                assert(flatten(qc)[i] == e[q]);
                let pv = c.last().1[q];
                assert(e[q].1 == qualify_profile(pv.1, c.last().0, directory));
                lemma_qualify_profile_qualified(pv.1, c.last().0, directory);
            }
        }
    }
}

} // verus!
