//! Environments: ordered `VARIABLE=value` mappings built from a profile's
//! value sources, with multi-value outputs expanded and `PATH` prepended to.

use crate::config::inherit::insert_entry;
use crate::config::inherit::key_index;
use crate::config::inherit::keys_unique;
use crate::config::inherit::lookup;
use crate::config::inherit::lemma_insert_entry;
use crate::config::option_string_view;
use crate::config::strings_view;
use crate::config::Profile;
use crate::config::MultiVariable;
use crate::config::MultiView;
use crate::config::SourceKindView;
use crate::config::SourceView;
use crate::config::ValueSource;
use crate::config::ValueSourceKind;
use crate::ordered::resolved_entries;
use crate::ordered::resolved_get_index;
use crate::ordered::resolved_insert;
use crate::ordered::resolved_len;
use crate::ordered::resolved_new;
use crate::ordered::resolved_view;
use crate::ordered::variables_get_index;
use crate::ordered::variables_len;
use crate::ordered::variable_entries;
use crate::shell::prepended_path;
use crate::shell::Shell;
use crate::text::equals;
use indexmap::IndexMap;
use vstd::prelude::*;

verus! {

/// A resolved value, and whether it must be masked when shown
#[derive(Debug)]
pub struct ResolvedValue {
    pub value: String,
    pub sensitive: bool,
}

impl View for ResolvedValue {
    type V = (Seq<char>, bool);

    open spec fn view(&self) -> (Seq<char>, bool) {
        (self.value@, self.sensitive)
    }
}

/// Container of `VARIABLE=value` mappings, in insertion order
#[derive(Debug)]
pub struct Environment(IndexMap<String, ResolvedValue>);

/// Model of an environment: its entries, in order
pub type EnvironmentView = Seq<(Seq<char>, (Seq<char>, bool))>;

impl View for Environment {
    type V = EnvironmentView;

    closed spec fn view(&self) -> EnvironmentView {
        resolved_view(self.0)
    }
}

/// A multi-variable mapping could not be parsed
#[derive(Debug)]
pub struct MappingError {
    /// The variable whose value source produced the mapping
    pub variable: String,
}

impl MappingError {
    /// The error message
    pub fn message(&self) -> (r: String)
        ensures
            r@ == "Error parsing multi-variable mapping for field "@ + self.variable@,
    {
        let mut s = "Error parsing multi-variable mapping for field ".to_string();
        s.append(self.variable.as_str());
        s
    }
}

// ---------------------------------------------------------------------------
// Parsing `KEY=value` lines
// ---------------------------------------------------------------------------

/// The `KEY=value` pairs that `dotenv_parser::parse_dotenv` reads from a
/// text, in the order of its map (sorted by key); none where it fails
pub uninterp spec fn dotenv_entries(source: Seq<char>) -> Option<Seq<(Seq<char>, Seq<char>)>>;

pub open spec fn pairs_view(v: Seq<(String, String)>) -> Seq<(Seq<char>, Seq<char>)> {
    v.map_values(|e: (String, String)| (e.0@, e.1@))
}

/// `dotenv_parser::parse_dotenv`: the pairs of a `.env`-style text
#[verifier::external_body]
fn parse_dotenv(source: &str) -> (r: Option<Vec<(String, String)>>)
    ensures
        match r {
            Some(v) => dotenv_entries(source@) == Some(pairs_view(v@)),
            None => dotenv_entries(source@) is None,
        },
{
    match dotenv_parser::parse_dotenv(source) {
        Ok(map) => Some(map.into_iter().collect()),
        Err(_) => None,
    }
}

// ---------------------------------------------------------------------------
// Model
// ---------------------------------------------------------------------------

/// The value stored for `variable`: a `PATH` value is prepended to the
/// inherited `PATH`
pub open spec fn path_value(variable: Seq<char>, value: Seq<char>, inherited_path: Option<Seq<char>>) -> Seq<char> {
    if variable == "PATH"@ {
        prepended_path(value, inherited_path)
    } else {
        value
    }
}

pub open spec fn env_insert(
    m: EnvironmentView,
    variable: Seq<char>,
    value: Seq<char>,
    sensitive: bool,
    inherited_path: Option<Seq<char>>,
) -> EnvironmentView {
    insert_entry(m, variable, (path_value(variable, value, inherited_path), sensitive))
}

pub open spec fn env_insert_all(
    m: EnvironmentView,
    pairs: Seq<(Seq<char>, Seq<char>)>,
    sensitive: bool,
    inherited_path: Option<Seq<char>>,
) -> EnvironmentView
    decreases pairs.len(),
{
    if pairs.len() == 0 {
        m
    } else {
        env_insert(
            env_insert_all(m, pairs.drop_last(), sensitive, inherited_path),
            pairs.last().0,
            pairs.last().1,
            sensitive,
            inherited_path,
        )
    }
}

/// The pairs whose variable is one of `names`, in their order
pub open spec fn selected_pairs(pairs: Seq<(Seq<char>, Seq<char>)>, names: Seq<Seq<char>>) -> Seq<(Seq<char>, Seq<char>)>
    decreases pairs.len(),
{
    if pairs.len() == 0 {
        Seq::empty()
    } else {
        let rest = selected_pairs(pairs.drop_last(), names);
        if names.contains(pairs.last().0) {
            rest.push(pairs.last())
        } else {
            rest
        }
    }
}

/// The environment after resolving `variable` from `source`, whose raw value
/// is `raw` and whose raw value read as `KEY=value` lines gives `parsed`
/// (none where it cannot be read so): a multi-value source adds each of the
/// pairs, or those of the variables it names (and the variable's own name is
/// dropped); another source adds the variable. None where a multi-value
/// source's pairs cannot be read.
pub open spec fn resolve_parsed_view(
    m: EnvironmentView,
    variable: Seq<char>,
    source: SourceView,
    raw: Seq<char>,
    parsed: Option<Seq<(Seq<char>, Seq<char>)>>,
    inherited_path: Option<Seq<char>>,
) -> Option<EnvironmentView> {
    match source.multiple {
        MultiView::Flag(false) => Some(env_insert(m, variable, raw, source.sensitive, inherited_path)),
        MultiView::Flag(true) => match parsed {
            Some(pairs) => Some(env_insert_all(m, pairs, source.sensitive, inherited_path)),
            None => None,
        },
        MultiView::Names(names) => match parsed {
            Some(pairs) => Some(env_insert_all(m, selected_pairs(pairs, names), source.sensitive, inherited_path)),
            None => None,
        },
    }
}

/// The environment after resolving `variable` from `source`, whose raw value
/// is `raw`, the `KEY=value` lines of a multi-value source being read by the
/// dotenv parser
pub open spec fn resolve_view(
    m: EnvironmentView,
    variable: Seq<char>,
    source: SourceView,
    raw: Seq<char>,
    inherited_path: Option<Seq<char>>,
) -> Option<EnvironmentView> {
    resolve_parsed_view(m, variable, source, raw, dotenv_entries(raw), inherited_path)
}

/// The raw value of a source: a literal carries its own, other sources have
/// theirs loaded (file contents, command output)
pub open spec fn raw_value(source: SourceView, loaded: Seq<char>) -> Seq<char> {
    match source.kind {
        SourceKindView::Literal(v) => v,
        _ => loaded,
    }
}

/// The environment of a profile's variables, `loaded[i]` being the loaded
/// value of the `i`-th; on failure, the variable whose mapping failed
pub open spec fn profile_environment(
    variables: Seq<(Seq<char>, SourceView)>,
    loaded: Seq<Seq<char>>,
    inherited_path: Option<Seq<char>>,
) -> Result<EnvironmentView, Seq<char>>
    decreases variables.len(),
{
    if variables.len() == 0 {
        Ok(Seq::empty())
    } else {
        match profile_environment(variables.drop_last(), loaded, inherited_path) {
            Err(v) => Err(v),
            Ok(m) => {
                let last = variables.last();
                match resolve_view(m, last.0, last.1, raw_value(last.1, loaded[variables.len() - 1]), inherited_path) {
                    Some(m2) => Ok(m2),
                    None => Err(last.0),
                }
            },
        }
    }
}

/// How a resolved value is shown: sensitive values are masked
pub open spec fn shown_value(v: (Seq<char>, bool)) -> Seq<char> {
    if v.1 {
        "<REDACTED>"@
    } else {
        v.0
    }
}

/// `VARIABLE = value` for each entry, joined by `separator`
pub open spec fn environment_text(m: EnvironmentView, separator: Seq<char>) -> Seq<char>
    decreases m.len(),
{
    if m.len() == 0 {
        Seq::empty()
    } else if m.len() == 1 {
        m[0].0 + " = "@ + shown_value(m[0].1)
    } else {
        environment_text(m.drop_last(), separator) + separator + m.last().0 + " = "@ + shown_value(m.last().1)
    }
}

/// `names` holds `name`
fn names_contain(names: &Vec<String>, name: &String) -> (r: bool)
    ensures
        r == strings_view(names@).contains(name@),
{
    let n = names.len();
    let mut i: usize = 0;
    while i < n
        invariant
            n == names@.len(),
            i <= n,
            forall|j: int| 0 <= j < i ==> #[trigger] strings_view(names@)[j] != name@,
        decreases n - i,
    {
        if equals(names[i].as_str(), name.as_str()) {
            assert(strings_view(names@)[i as int] == name@);
            return true;
        }
        i = i + 1;
    }
    false
}

/// The pairs whose variable is one of `names`, in their order
pub fn select_pairs(pairs: Vec<(String, String)>, names: &Vec<String>) -> (r: Vec<(String, String)>)
    ensures
        pairs_view(r@) == selected_pairs(pairs_view(pairs@), strings_view(names@)),
{
    let ghost pv = pairs_view(pairs@);
    let ghost nv = strings_view(names@);
    let mut r: Vec<(String, String)> = Vec::new();
    let n = pairs.len();
    let mut i: usize = 0;
    assert(pv.take(0) =~= Seq::<(Seq<char>, Seq<char>)>::empty());
    while i < n
        invariant
            n == pairs@.len(),
            pv == pairs_view(pairs@),
            nv == strings_view(names@),
            i <= n,
            pairs_view(r@) == selected_pairs(pv.take(i as int), nv),
        decreases n - i,
    {
        let (k, v) = &pairs[i];
        assert(pv.take(i + 1).drop_last() =~= pv.take(i as int));
        assert(pv.take(i + 1).last() == pv[i as int]);
        if names_contain(names, k) {
            let ghost before = pairs_view(r@);
            r.push((k.clone(), v.clone()));
            assert(pairs_view(r@) =~= before.push(pv[i as int]));
        }
        i = i + 1;
    }
    assert(pv.take(n as int) =~= pv);
    r
}

// ---------------------------------------------------------------------------
// Building environments
// ---------------------------------------------------------------------------

impl Environment {
    /// An empty environment
    pub fn new() -> (r: Environment)
        ensures
            r@ == Seq::<(Seq<char>, (Seq<char>, bool))>::empty(),
    {
        let r = Environment(resolved_new());
        assert(r@ =~= Seq::<(Seq<char>, (Seq<char>, bool))>::empty());
        r
    }

    /// Insert a `variable=value` mapping. A `PATH` value is added before the
    /// inherited `PATH` instead of replacing it.
    pub fn insert(&mut self, variable: String, value: String, sensitive: bool, inherited_path: &Option<String>)
        ensures
            final(self)@ == env_insert(old(self)@, variable@, value@, sensitive, option_string_view(*inherited_path)),
    {
        let value = if Shell::is_path_variable(variable.as_str()) {
            proof {
                reveal_strlit("PATH");
            }
            Shell::prepend_path(value, inherited_path)
        } else {
            proof {
                reveal_strlit("PATH");
            }
            value
        };
        let ghost before = self@;
        let ghost before_entries = resolved_entries(self.0);
        let ghost key = variable@;
        let resolved = ResolvedValue { value, sensitive };
        let ghost rv = resolved;
        resolved_insert(&mut self.0, variable, resolved);
        proof {
            match key_index(before, key) {
                Some(j) => {
                    assert(before_entries[j].0@ == key);
                    assert(resolved_entries(self.0) == before_entries.update(j, (before_entries[j].0, rv)));
                    assert(self@ =~= before.update(j, (key, rv@)));
                },
                None => {
                    assert forall|i: int| 0 <= i < before_entries.len() implies #[trigger] before_entries[i].0@ != key by {
                        assert(before[i].0 == before_entries[i].0@);
                    }
                    assert(self@ =~= before.push((key, rv@)));
                },
            }
        }
    }

    /// Insert each of `pairs`, in order
    pub fn insert_all(&mut self, pairs: Vec<(String, String)>, sensitive: bool, inherited_path: &Option<String>)
        ensures
            final(self)@ == env_insert_all(old(self)@, pairs_view(pairs@), sensitive, option_string_view(*inherited_path)),
    {
        let ghost start = self@;
        let ghost pv = pairs_view(pairs@);
        let n = pairs.len();
        let mut i: usize = 0;
        assert(pv.take(0) =~= Seq::<(Seq<char>, Seq<char>)>::empty());
        while i < n
            invariant
                n == pairs@.len(),
                pv == pairs_view(pairs@),
                i <= n,
                self@ == env_insert_all(start, pv.take(i as int), sensitive, option_string_view(*inherited_path)),
            decreases n - i,
        {
            let (k, v) = &pairs[i];
            self.insert(k.clone(), v.clone(), sensitive, inherited_path);
            assert(pv.take(i + 1).drop_last() =~= pv.take(i as int));
            assert(pv.take(i + 1).last() == pv[i as int]);
            i = i + 1;
        }
        assert(pv.take(n as int) =~= pv);
    }

    /// Resolve `variable` from `source`, whose raw value is `raw` and whose
    /// `KEY=value` lines read as `parsed` (none where they cannot be read): a
    /// multi-value source has the pairs inserted, all of them or those of the
    /// variables it names (the variable's own name is dropped); another
    /// source inserts the variable. Where a multi-value source's pairs cannot
    /// be read the environment is unchanged.
    pub fn resolve_parsed(
        &mut self,
        variable: String,
        source: &ValueSource,
        raw: String,
        parsed: Option<Vec<(String, String)>>,
        inherited_path: &Option<String>,
    ) -> (r: Result<(), MappingError>)
        ensures
            match resolve_parsed_view(
                old(self)@,
                variable@,
                source@,
                raw@,
                match parsed {
                    Some(v) => Some(pairs_view(v@)),
                    None => None,
                },
                option_string_view(*inherited_path),
            ) {
                Some(m) => r is Ok && final(self)@ == m,
                None => r is Err && r->Err_0.variable@ == variable@ && final(self)@ == old(self)@,
            },
    {
        match &source.0.multiple {
            MultiVariable::Flag(false) => {
                self.insert(variable, raw, source.0.sensitive, inherited_path);
                Ok(())
            },
            MultiVariable::Flag(true) => match parsed {
                Some(pairs) => {
                    self.insert_all(pairs, source.0.sensitive, inherited_path);
                    Ok(())
                },
                None => Err(MappingError { variable }),
            },
            MultiVariable::Names(names) => match parsed {
                Some(pairs) => {
                    let kept = select_pairs(pairs, names);
                    self.insert_all(kept, source.0.sensitive, inherited_path);
                    Ok(())
                },
                None => Err(MappingError { variable }),
            },
        }
    }

    /// Resolve `variable` from `source`, whose raw value is `raw`: a
    /// multi-value source has its `KEY=value` lines parsed and inserted, all
    /// of them or those of the variables it names (the variable's own name is
    /// dropped); another source inserts the variable. On a parse failure the
    /// environment is unchanged.
    pub fn resolve_variable(&mut self, variable: String, source: &ValueSource, raw: String, inherited_path: &Option<String>) -> (r: Result<(), MappingError>)
        ensures
            match resolve_view(old(self)@, variable@, source@, raw@, option_string_view(*inherited_path)) {
                Some(m) => r is Ok && final(self)@ == m,
                None => r is Err && r->Err_0.variable@ == variable@ && final(self)@ == old(self)@,
            },
    {
        let parsed = match &source.0.multiple {
            MultiVariable::Flag(false) => None,
            _ => parse_dotenv(raw.as_str()),
        };
        self.resolve_parsed(variable, source, raw, parsed, inherited_path)
    }

    /// The environment of a profile. `loaded[i]` is the loaded value of the
    /// profile's `i`-th variable (file contents or command output) where its
    /// source is not a literal; a literal carries its value itself.
    pub fn from_profile(profile: &Profile, loaded: &Vec<String>, inherited_path: &Option<String>) -> (r: Result<Environment, MappingError>)
        requires
            loaded@.len() == profile@.variables.len(),
        ensures
            match profile_environment(profile@.variables, strings_view(loaded@), option_string_view(*inherited_path)) {
                Ok(m) => r is Ok && r->Ok_0@ == m,
                Err(v) => r is Err && r->Err_0.variable@ == v,
            },
    {
        let ghost vars = profile@.variables;
        let ghost lv = strings_view(loaded@);
        let ghost inh = option_string_view(*inherited_path);
        let mut environment = Environment::new();
        let n = variables_len(&profile.variables);
        let mut i: usize = 0;
        assert(vars.take(0) =~= Seq::<(Seq<char>, SourceView)>::empty());
        while i < n
            invariant
                n == vars.len(),
                vars == profile@.variables,
                lv == strings_view(loaded@),
                inh == option_string_view(*inherited_path),
                loaded@.len() == n,
                i <= n,
                profile_environment(vars.take(i as int), lv, inh) == Ok::<EnvironmentView, Seq<char>>(environment@),
            decreases n - i,
        {
            let (variable, source) = variables_get_index(&profile.variables, i).unwrap();
            assert(vars[i as int] == (variable@, source@));
            let raw = match &source.0.kind {
                ValueSourceKind::Literal { value } => value.clone(),
                _ => loaded[i].clone(),
            };
            assert(raw@ == raw_value(source@, lv[i as int]));
            assert(vars.take(i + 1).drop_last() =~= vars.take(i as int));
            assert(vars.take(i + 1).last() == vars[i as int]);
            match environment.resolve_variable(variable.clone(), source, raw, inherited_path) {
                Ok(()) => {},
                Err(e) => {
                    assert(vars.take(i + 1).len() == i + 1);
                    proof {
                        lemma_profile_environment_err(vars, lv, inh, i + 1);
                    }
                    return Err(e);
                },
            }
            i = i + 1;
        }
        assert(vars.take(n as int) =~= vars);
        Ok(environment)
    }

    /// The `(variable, value)` pairs to export, in order
    pub fn unmasked(&self) -> (r: Vec<(String, String)>)
        ensures
            pairs_view(r@) == self@.map_values(|e: (Seq<char>, (Seq<char>, bool))| (e.0, e.1.0)),
    {
        let mut r: Vec<(String, String)> = Vec::new();
        let n = resolved_len(&self.0);
        let mut i: usize = 0;
        while i < n
            invariant
                n == self@.len(),
                i <= n,
                r@.len() == i,
                forall|j: int| 0 <= j < i ==> #[trigger] pairs_view(r@)[j] == (self@[j].0, self@[j].1.0),
            decreases n - i,
        {
            let (k, v) = resolved_get_index(&self.0, i).unwrap();
            assert(self@[i as int] == (k@, v@));
            let ghost before = pairs_view(r@);
            r.push((k.clone(), v.value.clone()));
            assert(pairs_view(r@) =~= before.push((k@, v.value@)));
            assert forall|j: int| 0 <= j < i + 1 implies #[trigger] pairs_view(r@)[j] == (self@[j].0, self@[j].1.0) by {
                if j < i {
                    assert(before[j] == (self@[j].0, self@[j].1.0));
                }
            }
            i = i + 1;
        }
        assert(pairs_view(r@) =~= self@.map_values(|e: (Seq<char>, (Seq<char>, bool))| (e.0, e.1.0)));
        r
    }

    /// The environment as text: `VARIABLE = value` for each entry, separated
    /// by `, ` (or by line breaks when `alternate`); sensitive values show as
    /// `<REDACTED>`
    pub fn display(&self, alternate: bool) -> (r: String)
        ensures
            r@ == environment_text(self@, if alternate { "\n"@ } else { ", "@ }),
    {
        let separator = if alternate { "\n" } else { ", " };
        let mut r = String::new();
        let n = resolved_len(&self.0);
        let mut i: usize = 0;
        while i < n
            invariant
                n == self@.len(),
                i <= n,
                separator@ == (if alternate { "\n"@ } else { ", "@ }),
                r@ == environment_text(self@.take(i as int), separator@),
            decreases n - i,
        {
            let (k, v) = resolved_get_index(&self.0, i).unwrap();
            assert(self@[i as int] == (k@, v@));
            if i > 0 {
                r.append(separator);
            }
            r.append(k.as_str());
            r.append(" = ");
            if v.sensitive {
                r.append("<REDACTED>");
            } else {
                r.append(v.value.as_str());
            }
            proof {
                let t = self@.take(i + 1);
                assert(t.drop_last() =~= self@.take(i as int));
                assert(t.last() == self@[i as int]);
                if i == 0 {
                    assert(t.len() == 1);
                    assert(t[0] == self@[0]);
                }
                assert(r@ =~= environment_text(t, separator@));
            }
            i = i + 1;
        }
        assert(self@.take(n as int) =~= self@);
        r
    }
}

proof fn lemma_profile_environment_err(
    vars: Seq<(Seq<char>, SourceView)>,
    loaded: Seq<Seq<char>>,
    inherited_path: Option<Seq<char>>,
    k: int,
)
    requires
        0 < k <= vars.len(),
        profile_environment(vars.take(k), loaded, inherited_path) is Err,
    ensures
        profile_environment(vars, loaded, inherited_path) == profile_environment(vars.take(k), loaded, inherited_path),
    decreases vars.len() - k,
{
    if k < vars.len() {
        assert(vars.take(k + 1).drop_last() =~= vars.take(k));
        lemma_profile_environment_err(vars, loaded, inherited_path, k + 1);
    } else {
        assert(vars.take(k) =~= vars);
    }
}

/// Some pair has variable `k`
pub open spec fn pairs_have(pairs: Seq<(Seq<char>, Seq<char>)>, k: Seq<char>) -> bool {
    exists|i: int| 0 <= i < pairs.len() && (#[trigger] pairs[i]).0 == k
}

/// Inserting pairs: each of their variables is then present with the given
/// sensitivity; every other variable keeps its entry
proof fn lemma_insert_all_effect(
    m: EnvironmentView,
    pairs: Seq<(Seq<char>, Seq<char>)>,
    sensitive: bool,
    inherited_path: Option<Seq<char>>,
    k: Seq<char>,
)
    requires
        keys_unique(m),
    ensures
        keys_unique(env_insert_all(m, pairs, sensitive, inherited_path)),
        pairs_have(pairs, k) ==> lookup(env_insert_all(m, pairs, sensitive, inherited_path), k) is Some
            && (lookup(env_insert_all(m, pairs, sensitive, inherited_path), k)->0).1 == sensitive,
        !pairs_have(pairs, k) ==> lookup(env_insert_all(m, pairs, sensitive, inherited_path), k) == lookup(m, k),
    decreases pairs.len(),
{
    if pairs.len() > 0 {
        let d = pairs.drop_last();
        let e = pairs.last();
        lemma_insert_all_effect(m, d, sensitive, inherited_path, k);
        let md = env_insert_all(m, d, sensitive, inherited_path);
        lemma_insert_entry(md, e.0, (path_value(e.0, e.1, inherited_path), sensitive));
        if pairs_have(pairs, k) && e.0 != k {
            let i = choose|i: int| 0 <= i < pairs.len() && (#[trigger] pairs[i]).0 == k;
            assert(i != pairs.len() - 1);
            assert(d[i] == pairs[i]);
        }
        if pairs_have(d, k) {
            let i = choose|i: int| 0 <= i < d.len() && (#[trigger] d[i]).0 == k;
            assert(pairs[i] == d[i]);
        }
        if e.0 == k {
            assert(pairs[pairs.len() - 1] == e);
        }
    }
}

/// The pairs kept by a list of names are those of the named variables
proof fn lemma_selected_pairs_have(pairs: Seq<(Seq<char>, Seq<char>)>, names: Seq<Seq<char>>, k: Seq<char>)
    ensures
        pairs_have(selected_pairs(pairs, names), k) <==> (pairs_have(pairs, k) && names.contains(k)),
    decreases pairs.len(),
{
    if pairs.len() > 0 {
        let d = pairs.drop_last();
        let e = pairs.last();
        lemma_selected_pairs_have(d, names, k);
        let sd = selected_pairs(d, names);
        if pairs_have(d, k) {
            let i = choose|i: int| 0 <= i < d.len() && (#[trigger] d[i]).0 == k;
            assert(pairs[i] == d[i]);
        }
        if pairs_have(pairs, k) {
            let i = choose|i: int| 0 <= i < pairs.len() && (#[trigger] pairs[i]).0 == k;
            if i < d.len() {
                assert(d[i] == pairs[i]);
            }
        }
        assert(pairs[pairs.len() - 1] == e);
        if names.contains(e.0) {
            let sp = sd.push(e);
            assert(selected_pairs(pairs, names) == sp);
            assert(sp[sd.len() as int] == e);
            if pairs_have(sd, k) {
                let i = choose|i: int| 0 <= i < sd.len() && (#[trigger] sd[i]).0 == k;
                assert(sp[i] == sd[i]);
            }
            if pairs_have(sp, k) {
                let i = choose|i: int| 0 <= i < sp.len() && (#[trigger] sp[i]).0 == k;
                if i < sd.len() {
                    assert(sd[i] == sp[i]);
                }
            }
        }
    }
}

/// Every variable a value source contributes carries the source's
/// sensitivity: the variable itself for a single-value source; each pair of
/// its mapping, or each pair of a variable it names, for a multi-value one.
/// Every other variable keeps its entry.
pub proof fn lemma_resolved_entries_carry_sensitivity(
    m: EnvironmentView,
    variable: Seq<char>,
    source: SourceView,
    raw: Seq<char>,
    parsed: Option<Seq<(Seq<char>, Seq<char>)>>,
    inherited_path: Option<Seq<char>>,
    k: Seq<char>,
)
    requires
        keys_unique(m),
        resolve_parsed_view(m, variable, source, raw, parsed, inherited_path) is Some,
    ensures
        ({
            let m2 = resolve_parsed_view(m, variable, source, raw, parsed, inherited_path)->0;
            let contributed = match source.multiple {
                MultiView::Flag(false) => k == variable,
                MultiView::Flag(true) => exists|i: int| 0 <= i < parsed->0.len() && (#[trigger] parsed->0[i]).0 == k,
                MultiView::Names(names) => names.contains(k)
                    && exists|i: int| 0 <= i < parsed->0.len() && (#[trigger] parsed->0[i]).0 == k,
            };
            &&& keys_unique(m2)
            &&& contributed ==> lookup(m2, k) is Some && (lookup(m2, k)->0).1 == source.sensitive
            &&& !contributed ==> lookup(m2, k) == lookup(m, k)
        }),
{
    match source.multiple {
        MultiView::Flag(false) => {
            lemma_insert_entry(m, variable, (path_value(variable, raw, inherited_path), source.sensitive));
        },
        MultiView::Flag(true) => {
            lemma_insert_all_effect(m, parsed->0, source.sensitive, inherited_path, k);
        },
        MultiView::Names(names) => {
            lemma_selected_pairs_have(parsed->0, names, k);
            lemma_insert_all_effect(m, selected_pairs(parsed->0, names), source.sensitive, inherited_path, k);
        },
    }
}

} // verus!
