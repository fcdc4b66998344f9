//! The configuration model: applications, profiles, value sources and side
//! effects, as loaded from one or more config files.

pub mod graph;
pub mod inherit;
pub mod merge;
pub mod name;
pub mod qualify;

use crate::config::inherit::keys_unique;
use crate::config::name::Name;
use crate::config::name::ProfileReference;
use crate::config::name::RefView;
use crate::ordered::applications_view;
use crate::ordered::profile_entries;
use crate::ordered::profiles_get_index;
use crate::ordered::profiles_insert;
use crate::ordered::profiles_len;
use crate::ordered::profiles_new;
use crate::ordered::reference_entries;
use crate::ordered::references_get_index;
use crate::ordered::references_insert;
use crate::ordered::references_len;
use crate::ordered::references_new;
use crate::ordered::variable_entries;
use crate::ordered::variables_get_index;
use crate::ordered::variables_insert;
use crate::ordered::variables_len;
use crate::ordered::variables_new;
use crate::ordered::profiles_view;
use crate::ordered::references_view;
use crate::ordered::variables_view;
use indexmap::IndexMap;
use indexmap::IndexSet;
use vstd::prelude::*;

verus! {

/// All configuration, as loaded from one or more config files. Insertion
/// order of the maps follows the input files.
#[derive(Debug, PartialEq, Eq)]
pub struct Config {
    /// A set of named applications (use cases). Each application is a group
    /// of profiles.
    pub applications: IndexMap<Name, Application>,
}

/// A grouping of profiles: different "versions" of the same application,
/// e.g. dev vs prd for the same service.
#[derive(Debug, PartialEq, Eq)]
pub struct Application {
    pub profiles: IndexMap<Name, Profile>,
}

/// A set of variable mappings plus side effects.
#[derive(Debug, PartialEq, Eq)]
pub struct Profile {
    /// Profiles that this one inherits from, in order
    pub extends: IndexSet<ProfileReference>,
    /// Variable-to-source mappings
    pub variables: IndexMap<String, ValueSource>,
    /// Imperative commands to run *before* resolving an environment
    pub pre_export: Vec<SideEffect>,
    /// Imperative commands to run *after* resolving an environment
    pub post_export: Vec<SideEffect>,
}

/// The source of an exported value: a literal, or something evaluated lazily.
#[derive(Debug, PartialEq, Eq, Hash)]
pub struct ValueSource(pub ValueSourceInner);

/// Data common to all value sources, plus the kind itself
#[derive(Debug, PartialEq, Eq, Hash)]
pub struct ValueSourceInner {
    pub kind: ValueSourceKind,
    /// Whether the source yields line-delimited `VARIABLE=value` mappings
    /// instead of a single value, and which of them to keep
    pub multiple: MultiVariable,
    /// Value(s) should be masked in display output
    pub sensitive: bool,
}

/// The supported kinds of value sources
#[allow(inconsistent_fields)]
#[derive(Debug, PartialEq, Eq, Hash)]
pub enum ValueSourceKind {
    /// A plain string value
    Literal { value: String },
    /// Load the value from a file, relative to the config file it is defined in
    File { path: String },
    /// A program with arguments, executed directly, from `cwd` where given
    /// (relative to the config file it is defined in)
    NativeCommand { command: NativeCommand, cwd: Option<String> },
    /// A command executed via the shell, from `cwd` where given (relative to
    /// the config file it is defined in)
    ShellCommand { command: String, cwd: Option<String> },
    /// A command run in a kubernetes pod
    KubernetesCommand {
        command: NativeCommand,
        pod_selector: String,
        namespace: Option<String>,
        container: Option<String>,
    },
}

/// How a value source's output is read
#[derive(Debug, PartialEq, Eq, Hash)]
pub enum MultiVariable {
    /// `false`: the output is the variable's value; `true`: the output is a
    /// `VARIABLE=value` mapping, all of which is loaded
    Flag(bool),
    /// The output is a `VARIABLE=value` mapping, of which only the named
    /// variables are loaded
    Names(Vec<String>),
}

/// A pair of imperative commands: the setup runs while building an
/// environment, the teardown (in mirrored position) while cleaning it up.
#[derive(Debug, PartialEq, Eq, Hash)]
pub struct SideEffect {
    setup: Option<SideEffectCommand>,
    teardown: Option<SideEffectCommand>,
}

/// A single imperative command of a side effect
#[derive(Debug, PartialEq, Eq, Hash)]
pub enum SideEffectCommand {
    Native(NativeCommand),
    Shell(String),
}

/// A program name/path with zero or more arguments
#[derive(Debug, PartialEq, Eq, Hash)]
pub struct NativeCommand {
    pub program: String,
    pub arguments: Vec<String>,
}

// ---------------------------------------------------------------------------
// Mathematical models
// ---------------------------------------------------------------------------

pub struct NativeCommandView {
    pub program: Seq<char>,
    pub arguments: Seq<Seq<char>>,
}

pub enum CommandView {
    Native(NativeCommandView),
    Shell(Seq<char>),
}

pub struct SideEffectView {
    pub setup: Option<CommandView>,
    pub teardown: Option<CommandView>,
}

#[allow(inconsistent_fields)]
pub enum SourceKindView {
    Literal(Seq<char>),
    File(Seq<char>),
    Native { command: NativeCommandView, cwd: Option<Seq<char>> },
    Shell { command: Seq<char>, cwd: Option<Seq<char>> },
    Kubernetes {
        command: NativeCommandView,
        pod_selector: Seq<char>,
        namespace: Option<Seq<char>>,
        container: Option<Seq<char>>,
    },
}

pub enum MultiView {
    Flag(bool),
    Names(Seq<Seq<char>>),
}

pub struct SourceView {
    pub kind: SourceKindView,
    pub multiple: MultiView,
    pub sensitive: bool,
}

pub struct ProfileView {
    pub extends: Seq<RefView>,
    pub variables: Seq<(Seq<char>, SourceView)>,
    pub pre_export: Seq<SideEffectView>,
    pub post_export: Seq<SideEffectView>,
}

/// An application: its profiles, by name, in order
pub type ApplicationView = Seq<(Seq<char>, ProfileView)>;

/// A config: its applications, by name, in order
pub type ConfigView = Seq<(Seq<char>, ApplicationView)>;

pub open spec fn strings_view(v: Seq<String>) -> Seq<Seq<char>> {
    v.map_values(|s: String| s@)
}

pub open spec fn option_string_view(o: Option<String>) -> Option<Seq<char>> {
    match o {
        Some(s) => Some(s@),
        None => None,
    }
}

impl View for NativeCommand {
    type V = NativeCommandView;

    open spec fn view(&self) -> NativeCommandView {
        NativeCommandView { program: self.program@, arguments: strings_view(self.arguments@) }
    }
}

impl View for SideEffectCommand {
    type V = CommandView;

    open spec fn view(&self) -> CommandView {
        match self {
            SideEffectCommand::Native(c) => CommandView::Native(c@),
            SideEffectCommand::Shell(s) => CommandView::Shell(s@),
        }
    }
}

pub open spec fn option_command_view(o: Option<SideEffectCommand>) -> Option<CommandView> {
    match o {
        Some(c) => Some(c@),
        None => None,
    }
}

impl View for SideEffect {
    type V = SideEffectView;

    closed spec fn view(&self) -> SideEffectView {
        SideEffectView {
            setup: option_command_view(self.setup),
            teardown: option_command_view(self.teardown),
        }
    }
}

impl View for ValueSourceKind {
    type V = SourceKindView;

    open spec fn view(&self) -> SourceKindView {
        match self {
            ValueSourceKind::Literal { value } => SourceKindView::Literal(value@),
            ValueSourceKind::File { path } => SourceKindView::File(path@),
            ValueSourceKind::NativeCommand { command, cwd } => SourceKindView::Native {
                command: command@,
                cwd: option_string_view(*cwd),
            },
            ValueSourceKind::ShellCommand { command, cwd } => SourceKindView::Shell {
                command: command@,
                cwd: option_string_view(*cwd),
            },
            ValueSourceKind::KubernetesCommand { command, pod_selector, namespace, container } =>
                SourceKindView::Kubernetes {
                command: command@,
                pod_selector: pod_selector@,
                namespace: option_string_view(*namespace),
                container: option_string_view(*container),
            },
        }
    }
}

impl View for MultiVariable {
    type V = MultiView;

    open spec fn view(&self) -> MultiView {
        match self {
            MultiVariable::Flag(b) => MultiView::Flag(*b),
            MultiVariable::Names(names) => MultiView::Names(strings_view(names@)),
        }
    }
}

impl MultiVariable {
    pub fn copy(&self) -> (r: MultiVariable)
        ensures
            r@ == self@,
    {
        match self {
            MultiVariable::Flag(b) => MultiVariable::Flag(*b),
            MultiVariable::Names(names) => MultiVariable::Names(clone_strings(names)),
        }
    }
}

impl View for ValueSourceInner {
    type V = SourceView;

    open spec fn view(&self) -> SourceView {
        SourceView { kind: self.kind@, multiple: self.multiple@, sensitive: self.sensitive }
    }
}

impl View for ValueSource {
    type V = SourceView;

    open spec fn view(&self) -> SourceView {
        self.0@
    }
}

pub open spec fn side_effects_view(v: Seq<SideEffect>) -> Seq<SideEffectView> {
    v.map_values(|s: SideEffect| s@)
}

impl View for Profile {
    type V = ProfileView;

    open spec fn view(&self) -> ProfileView {
        ProfileView {
            extends: references_view(self.extends),
            variables: variables_view(self.variables),
            pre_export: side_effects_view(self.pre_export@),
            post_export: side_effects_view(self.post_export@),
        }
    }
}

impl View for Application {
    type V = ApplicationView;

    open spec fn view(&self) -> ApplicationView {
        profiles_view(self.profiles)
    }
}

impl View for Config {
    type V = ConfigView;

    open spec fn view(&self) -> ConfigView {
        applications_view(self.applications)
    }
}

// ---------------------------------------------------------------------------
// Constructors, accessors and copies
// ---------------------------------------------------------------------------

/// Copy a list of strings
pub fn clone_strings(v: &Vec<String>) -> (r: Vec<String>)
    ensures
        strings_view(r@) == strings_view(v@),
{
    let mut r: Vec<String> = Vec::new();
    let mut i: usize = 0;
    while i < v.len()
        invariant
            i <= v.len(),
            r@.len() == i,
            forall|j: int| 0 <= j < i ==> #[trigger] r@[j]@ == v@[j]@,
        decreases v.len() - i,
    {
        r.push(v[i].clone());
        i = i + 1;
    }
    assert(strings_view(r@) =~= strings_view(v@));
    r
}

pub fn clone_option_string(o: &Option<String>) -> (r: Option<String>)
    ensures
        option_string_view(r) == option_string_view(*o),
{
    match o {
        Some(s) => Some(s.clone()),
        None => None,
    }
}

impl NativeCommand {
    pub fn copy(&self) -> (r: NativeCommand)
        ensures
            r@ == self@,
    {
        NativeCommand { program: self.program.clone(), arguments: clone_strings(&self.arguments) }
    }
}

impl SideEffectCommand {
    pub fn copy(&self) -> (r: SideEffectCommand)
        ensures
            r@ == self@,
    {
        match self {
            SideEffectCommand::Native(c) => SideEffectCommand::Native(c.copy()),
            SideEffectCommand::Shell(s) => SideEffectCommand::Shell(s.clone()),
        }
    }
}

pub fn copy_option_command(o: &Option<SideEffectCommand>) -> (r: Option<SideEffectCommand>)
    ensures
        option_command_view(r) == option_command_view(*o),
{
    match o {
        Some(c) => Some(c.copy()),
        None => None,
    }
}

impl SideEffect {
    /// Build a side effect from its (optional) setup and teardown commands
    pub fn new(setup: Option<SideEffectCommand>, teardown: Option<SideEffectCommand>) -> (r:
        SideEffect)
        ensures
            r@.setup == option_command_view(setup),
            r@.teardown == option_command_view(teardown),
    {
        SideEffect { setup, teardown }
    }

    /// The command to run during setup, if any
    pub fn setup(&self) -> (r: Option<&SideEffectCommand>)
        ensures
            match r {
                Some(c) => self@.setup == Some(c@),
                None => self@.setup is None,
            },
    {
        self.setup.as_ref()
    }

    /// The command to run during teardown, if any
    pub fn teardown(&self) -> (r: Option<&SideEffectCommand>)
        ensures
            match r {
                Some(c) => self@.teardown == Some(c@),
                None => self@.teardown is None,
            },
    {
        self.teardown.as_ref()
    }

    pub fn copy(&self) -> (r: SideEffect)
        ensures
            r@ == self@,
    {
        SideEffect {
            setup: copy_option_command(&self.setup),
            teardown: copy_option_command(&self.teardown),
        }
    }
}

/// Copy a list of side effects
pub fn copy_side_effects(v: &Vec<SideEffect>) -> (r: Vec<SideEffect>)
    ensures
        side_effects_view(r@) == side_effects_view(v@),
{
    let mut r: Vec<SideEffect> = Vec::new();
    let mut i: usize = 0;
    while i < v.len()
        invariant
            i <= v.len(),
            r@.len() == i,
            forall|j: int| 0 <= j < i ==> #[trigger] r@[j]@ == v@[j]@,
        decreases v.len() - i,
    {
        r.push(v[i].copy());
        i = i + 1;
    }
    assert(side_effects_view(r@) =~= side_effects_view(v@));
    r
}

impl ValueSourceKind {
    pub fn copy(&self) -> (r: ValueSourceKind)
        ensures
            r@ == self@,
    {
        match self {
            ValueSourceKind::Literal { value } => ValueSourceKind::Literal { value: value.clone() },
            ValueSourceKind::File { path } => ValueSourceKind::File { path: path.clone() },
            ValueSourceKind::NativeCommand { command, cwd } => ValueSourceKind::NativeCommand {
                command: command.copy(),
                cwd: clone_option_string(cwd),
            },
            ValueSourceKind::ShellCommand { command, cwd } => ValueSourceKind::ShellCommand {
                command: command.clone(),
                cwd: clone_option_string(cwd),
            },
            ValueSourceKind::KubernetesCommand { command, pod_selector, namespace, container } =>
                ValueSourceKind::KubernetesCommand {
                command: command.copy(),
                pod_selector: pod_selector.clone(),
                namespace: clone_option_string(namespace),
                container: clone_option_string(container),
            },
        }
    }
}

impl ValueSource {
    /// Build a value source from a plain string value. The other fields take
    /// their defaults (not multiple, not sensitive).
    pub fn from_literal(value: String) -> (r: ValueSource)
        ensures
            r@ == (SourceView {
                kind: SourceKindView::Literal(value@),
                multiple: MultiView::Flag(false),
                sensitive: false,
            }),
    {
        ValueSource(
            ValueSourceInner {
                kind: ValueSourceKind::Literal { value },
                multiple: MultiVariable::Flag(false),
                sensitive: false,
            },
        )
    }

    pub fn copy(&self) -> (r: ValueSource)
        ensures
            r@ == self@,
    {
        ValueSource(
            ValueSourceInner {
                kind: self.0.kind.copy(),
                multiple: self.0.multiple.copy(),
                sensitive: self.0.sensitive,
            },
        )
    }
}

/// Copy a set of profile references, keeping its order
pub fn copy_references(s: &IndexSet<ProfileReference>) -> (r: IndexSet<ProfileReference>)
    ensures
        references_view(r) == references_view(*s),
{
    let mut r = references_new();
    let n = references_len(s);
    let mut i: usize = 0;
    while i < n
        invariant
            n == reference_entries(*s).len(),
            i <= n,
            reference_entries(r).len() == i,
            forall|j: int| 0 <= j < i ==> #[trigger] reference_entries(r)[j]@ == reference_entries(*s)[j]@,
        decreases n - i,
    {
        let e = references_get_index(s, i).unwrap();
        assert(!references_view(r).contains(e@)) by {
            if references_view(r).contains(e@) {
                let k = choose|k: int| 0 <= k < references_view(r).len() && references_view(r)[k] == e@;
                assert(reference_entries(*s)[k]@ == e@);
            }
        }
        references_insert(&mut r, e.clone());
        i = i + 1;
    }
    assert(references_view(r) =~= references_view(*s));
    r
}

/// Copy a variable map, keeping its order
pub fn copy_variables(m: &IndexMap<String, ValueSource>) -> (r: IndexMap<String, ValueSource>)
    ensures
        variables_view(r) == variables_view(*m),
        keys_unique(variables_view(r)),
{
    let mut r = variables_new();
    let n = variables_len(m);
    let mut i: usize = 0;
    while i < n
        invariant
            n == variable_entries(*m).len(),
            i <= n,
            variable_entries(r).len() == i,
            forall|j: int| 0 <= j < i ==> #[trigger] variable_entries(r)[j].0@ == variable_entries(*m)[j].0@
                && variable_entries(r)[j].1@ == variable_entries(*m)[j].1@,
            forall|j1: int, j2: int| 0 <= j1 < i && 0 <= j2 < i && j1 != j2 ==> #[trigger] variable_entries(r)[j1].0@
                != #[trigger] variable_entries(r)[j2].0@,
        decreases n - i,
    {
        let (k, v) = variables_get_index(m, i).unwrap();
        assert forall|j: int| 0 <= j < variable_entries(r).len() implies #[trigger] variable_entries(r)[j].0@ != k@ by {
            assert(variable_entries(*m)[j].0@ != k@);
        }
        variables_insert(&mut r, k.clone(), v.copy());
        i = i + 1;
    }
    assert(variables_view(r) =~= variables_view(*m));
    assert(keys_unique(variables_view(r))) by {
        assert forall|j1: int, j2: int| 0 <= j1 < n && 0 <= j2 < n && j1 != j2 implies variables_view(r)[j1].0
            != variables_view(r)[j2].0 by {
            assert(variable_entries(r)[j1].0@ != variable_entries(r)[j2].0@);
        }
    }
    r
}

impl Profile {
    /// A profile with nothing in it
    pub fn new() -> (r: Profile)
        ensures
            r@.extends == Seq::<RefView>::empty(),
            r@.variables == Seq::<(Seq<char>, SourceView)>::empty(),
            r@.pre_export == Seq::<SideEffectView>::empty(),
            r@.post_export == Seq::<SideEffectView>::empty(),
    {
        let r = Profile {
            extends: references_new(),
            variables: variables_new(),
            pre_export: Vec::new(),
            post_export: Vec::new(),
        };
        assert(r@.extends =~= Seq::<RefView>::empty());
        assert(r@.variables =~= Seq::<(Seq<char>, SourceView)>::empty());
        assert(r@.pre_export =~= Seq::<SideEffectView>::empty());
        assert(r@.post_export =~= Seq::<SideEffectView>::empty());
        r
    }

    pub fn copy(&self) -> (r: Profile)
        ensures
            r@ == self@,
            keys_unique(r@.variables),
    {
        Profile {
            extends: copy_references(&self.extends),
            variables: copy_variables(&self.variables),
            pre_export: copy_side_effects(&self.pre_export),
            post_export: copy_side_effects(&self.post_export),
        }
    }
}

impl Application {
    pub fn copy(&self) -> (r: Application)
        ensures
            r@ == self@,
    {
        let mut profiles = profiles_new();
        let n = profiles_len(&self.profiles);
        let mut i: usize = 0;
        while i < n
            invariant
                n == profile_entries(self.profiles).len(),
                i <= n,
                profile_entries(profiles).len() == i,
                forall|j: int| 0 <= j < i ==> #[trigger] profile_entries(profiles)[j].0@ == profile_entries(self.profiles)[j].0@
                    && profile_entries(profiles)[j].1@ == profile_entries(self.profiles)[j].1@,
            decreases n - i,
        {
            let (k, v) = profiles_get_index(&self.profiles, i).unwrap();
            assert forall|j: int| 0 <= j < profile_entries(profiles).len() implies #[trigger] profile_entries(profiles)[j].0@ != k@ by {
                assert(profile_entries(self.profiles)[j].0@ != k@);
            }
            profiles_insert(&mut profiles, k.clone(), v.copy());
            i = i + 1;
        }
        assert(profiles_view(profiles) =~= profiles_view(self.profiles));
        Application { profiles }
    }
}


// ---------------------------------------------------------------------------
// Display and conversions
// ---------------------------------------------------------------------------

/// Each argument, double-quoted, after a space
pub open spec fn arguments_text(arguments: Seq<Seq<char>>) -> Seq<char>
    decreases arguments.len(),
{
    if arguments.len() == 0 {
        Seq::empty()
    } else {
        arguments_text(arguments.drop_last()) + " \""@ + arguments.last() + "\""@
    }
}

/// A native command as shown: `` `program "arg1" "arg2"` ``
pub open spec fn native_text(c: NativeCommandView) -> Seq<char> {
    "`"@ + c.program + arguments_text(c.arguments) + "`"@
}

/// A value source as shown
pub open spec fn source_text(s: SourceView) -> Seq<char> {
    match s.kind {
        SourceKindView::Literal(v) => "\""@ + v + "\""@,
        SourceKindView::File(p) => p,
        SourceKindView::Native { command, .. } => native_text(command) + " (native)"@,
        SourceKindView::Shell { command, .. } => "`"@ + command + "` (shell)"@,
        SourceKindView::Kubernetes { command, pod_selector, namespace, container } => native_text(command)
            + " (kubernetes "@ + match namespace {
            Some(n) => n,
            None => "<current namespace>"@,
        } + "["@ + pod_selector + "]"@ + match container {
            Some(c) => "."@ + c,
            None => Seq::empty(),
        } + ")"@,
    }
}

impl NativeCommand {
    /// The command as shown: the program and each double-quoted argument,
    /// in backticks
    pub fn display(&self) -> (r: String)
        ensures
            r@ == native_text(self@),
    {
        let mut s = "`".to_string();
        s.append(self.program.as_str());
        let ghost args = strings_view(self.arguments@);
        let mut i: usize = 0;
        assert(args.take(0) =~= Seq::<Seq<char>>::empty());
        while i < self.arguments.len()
            invariant
                args == strings_view(self.arguments@),
                i <= self.arguments@.len(),
                s@ == "`"@ + self.program@ + arguments_text(args.take(i as int)),
            decreases self.arguments@.len() - i,
        {
            s.append(" \"");
            s.append(self.arguments[i].as_str());
            s.append("\"");
            proof {
                assert(args.take(i + 1).drop_last() =~= args.take(i as int));
                assert(args.take(i + 1).last() == self.arguments@[i as int]@);
                assert(s@ =~= "`"@ + self.program@ + arguments_text(args.take(i + 1)));
            }
            i = i + 1;
        }
        assert(args.take(self.arguments@.len() as int) =~= args);
        s.append("`");
        s
    }

    /// A command from its array form: the program, then the arguments. An
    /// empty array is refused.
    pub fn from_vec(value: Vec<String>) -> (r: Result<NativeCommand, String>)
        ensures
            value@.len() > 0 ==> r is Ok && r->Ok_0@.program == value@[0]@ && r->Ok_0@.arguments == strings_view(value@).drop_first(),
            value@.len() == 0 ==> r is Err && r->Err_0@ == "Command array must have at least one element"@,
    {
        if value.len() == 0 {
            return Err("Command array must have at least one element".to_string());
        }
        let mut arguments: Vec<String> = Vec::new();
        let mut i: usize = 1;
        while i < value.len()
            invariant
                1 <= i <= value@.len(),
                arguments@.len() == i - 1,
                forall|j: int| 0 <= j < i - 1 ==> (#[trigger] arguments@[j])@ == value@[j + 1]@,
            decreases value@.len() - i,
        {
            arguments.push(value[i].clone());
            i = i + 1;
        }
        let r = NativeCommand { program: value[0].clone(), arguments };
        assert(strings_view(r.arguments@) =~= strings_view(value@).drop_first());
        Ok(r)
    }

    /// The array form: the program, then the arguments
    pub fn to_vec(&self) -> (r: Vec<String>)
        ensures
            strings_view(r@) == seq![self@.program] + self@.arguments,
    {
        let mut r: Vec<String> = Vec::new();
        r.push(self.program.clone());
        let mut i: usize = 0;
        while i < self.arguments.len()
            invariant
                i <= self.arguments@.len(),
                r@.len() == i + 1,
                r@[0]@ == self.program@,
                forall|j: int| 1 <= j <= i ==> (#[trigger] r@[j])@ == self.arguments@[j - 1]@,
            decreases self.arguments@.len() - i,
        {
            r.push(self.arguments[i].clone());
            i = i + 1;
        }
        assert(strings_view(r@) =~= seq![self@.program] + self@.arguments);
        r
    }
}

impl ValueSource {
    /// The value source as shown: a literal in double quotes, a file by its
    /// path, a command with its kind
    pub fn display(&self) -> (r: String)
        ensures
            r@ == source_text(self@),
    {
        match &self.0.kind {
            ValueSourceKind::Literal { value } => {
                let mut s = "\"".to_string();
                s.append(value.as_str());
                s.append("\"");
                s
            },
            ValueSourceKind::File { path } => path.clone(),
            ValueSourceKind::NativeCommand { command, .. } => {
                let mut s = command.display();
                s.append(" (native)");
                s
            },
            ValueSourceKind::ShellCommand { command, .. } => {
                let mut s = "`".to_string();
                s.append(command.as_str());
                s.append("` (shell)");
                s
            },
            ValueSourceKind::KubernetesCommand { command, pod_selector, namespace, container } => {
                let mut s = command.display();
                s.append(" (kubernetes ");
                match namespace {
                    Some(n) => s.append(n.as_str()),
                    None => s.append("<current namespace>"),
                }
                s.append("[");
                s.append(pod_selector.as_str());
                s.append("]");
                match container {
                    Some(c) => {
                        s.append(".");
                        s.append(c.as_str());
                    },
                    None => {},
                }
                s.append(")");
                s
            },
        }
    }
}

} // verus!
