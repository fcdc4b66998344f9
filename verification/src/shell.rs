//! The shells env-select supports: how to export an environment in each, how
//! to run a command through one, and how the shell in use is recognised.

use crate::config::option_string_view;
use crate::config::strings_view;
use crate::config::NativeCommand;
use crate::config::NativeCommandView;
use crate::config::SideEffectCommand;
use crate::config::CommandView;
use crate::environment::pairs_view;
use crate::environment::Environment;
use crate::text::equals;
use crate::text::replace;
use crate::text::replace_all;
use std::path::Path;
use vstd::prelude::*;

verus! {

/// A supported kind of shell
#[derive(Clone, Copy, Debug, PartialEq, Eq, Structural)]
pub enum ShellKind {
    Bash,
    Zsh,
    Fish,
}

/// A shell of a given kind, with the path it was found at when it was
/// detected from `$SHELL`
#[derive(Debug)]
pub struct Shell {
    pub kind: ShellKind,
    pub path: Option<String>,
}

/// Why the shell in use could not be recognised from its path
#[derive(Debug)]
pub enum ShellError {
    /// The path has no final component
    NoFileName { path: String },
    /// The final component names no supported shell
    UnknownKind { name: String },
}

/// The binary name of a shell kind
pub open spec fn kind_name(kind: ShellKind) -> Seq<char> {
    match kind {
        ShellKind::Bash => "bash"@,
        ShellKind::Zsh => "zsh"@,
        ShellKind::Fish => "fish"@,
    }
}

/// The code of a character, ASCII capitals taken as lower case
pub open spec fn ascii_lower(c: char) -> u32 {
    let v = c as u32;
    if 65 <= v && v <= 90 {
        (v + 32) as u32
    } else {
        v
    }
}

/// Equal when ASCII letters are compared without case
pub open spec fn eq_ignore_ascii_case(a: Seq<char>, b: Seq<char>) -> bool {
    a.len() == b.len() && forall|i: int| 0 <= i < a.len() ==> ascii_lower(#[trigger] a[i]) == ascii_lower(b[i])
}

/// The shell kind a name stands for, letter case aside
pub open spec fn kind_of_name(name: Seq<char>) -> Option<ShellKind> {
    if eq_ignore_ascii_case(name, "bash"@) {
        Some(ShellKind::Bash)
    } else if eq_ignore_ascii_case(name, "zsh"@) {
        Some(ShellKind::Zsh)
    } else if eq_ignore_ascii_case(name, "fish"@) {
        Some(ShellKind::Fish)
    } else {
        None
    }
}

/// A new directory before the inherited `PATH`, separated by `:`
pub open spec fn prepended_path(new_path: Seq<char>, inherited_path: Option<Seq<char>>) -> Seq<char> {
    match inherited_path {
        Some(p) => new_path + ":"@ + p,
        None => new_path,
    }
}

/// The line that exports one variable in a shell of `kind`
pub open spec fn export_line(kind: ShellKind, variable: Seq<char>, value: Seq<char>) -> Seq<char> {
    match kind {
        ShellKind::Fish => "set -gx '"@ + variable + "' '"@ + value + "'\n"@,
        _ => "export '"@ + variable + "'='"@ + value + "'\n"@,
    }
}

/// The export lines of all pairs, in order
pub open spec fn export_text(kind: ShellKind, pairs: Seq<(Seq<char>, Seq<char>)>) -> Seq<char>
    decreases pairs.len(),
{
    if pairs.len() == 0 {
        Seq::empty()
    } else {
        export_text(kind, pairs.drop_last()) + export_line(kind, pairs.last().0, pairs.last().1)
    }
}

/// What `std::path::Path::file_name` gives for a path, as text
pub uninterp spec fn path_file_name(path: Seq<char>) -> Option<Seq<char>>;

/// `Path::file_name`: the final component of a path, if there is one
#[verifier::external_body]
fn file_name(path: &str) -> (r: Option<String>)
    ensures
        option_string_view(r) == path_file_name(path@),
{
    match Path::new(path).file_name() {
        Some(name) => Some(name.to_string_lossy().into_owned()),
        None => None,
    }
}

/// Do `a` and `b` match with ASCII letters compared without case?
fn equals_ignore_ascii_case(a: &str, b: &str) -> (r: bool)
    ensures
        r == eq_ignore_ascii_case(a@, b@),
{
    let n = a.unicode_len();
    if n != b.unicode_len() {
        return false;
    }
    let mut i: usize = 0;
    while i < n
        invariant
            n == a@.len(),
            n == b@.len(),
            i <= n,
            forall|j: int| 0 <= j < i ==> ascii_lower(#[trigger] a@[j]) == ascii_lower(b@[j]),
        decreases n - i,
    {
        let x = a.get_char(i) as u32;
        let y = b.get_char(i) as u32;
        let lx = if 65 <= x && x <= 90 { x + 32 } else { x };
        let ly = if 65 <= y && y <= 90 { y + 32 } else { y };
        assert(lx == ascii_lower(a@[i as int]));
        assert(ly == ascii_lower(b@[i as int]));
        if lx != ly {
            return false;
        }
        i = i + 1;
    }
    true
}

impl ShellKind {
    /// The binary name: `bash`, `zsh` or `fish`
    pub fn name(&self) -> (r: &'static str)
        ensures
            r@ == kind_name(*self),
    {
        match self {
            ShellKind::Bash => "bash",
            ShellKind::Zsh => "zsh",
            ShellKind::Fish => "fish",
        }
    }

    /// The shell kind of a name, letter case aside (`Bash` is bash). The
    /// error message names the input.
    pub fn from_name(name: &str) -> (r: Result<ShellKind, String>)
        ensures
            match kind_of_name(name@) {
                Some(k) => r == Ok::<ShellKind, String>(k),
                None => r is Err && r->Err_0@ == "invalid variant: "@ + name@,
            },
    {
        if equals_ignore_ascii_case(name, "bash") {
            Ok(ShellKind::Bash)
        } else if equals_ignore_ascii_case(name, "zsh") {
            Ok(ShellKind::Zsh)
        } else if equals_ignore_ascii_case(name, "fish") {
            Ok(ShellKind::Fish)
        } else {
            let mut message = "invalid variant: ".to_string();
            message.append(name);
            Err(message)
        }
    }
}

impl ShellError {
    /// The error message
    pub fn message(&self) -> (r: String)
        ensures
            r@ == match self {
                ShellError::NoFileName { path } => "Failed to read shell type from path: "@ + path@,
                ShellError::UnknownKind { name } => "invalid variant: "@ + name@,
            },
    {
        match self {
            ShellError::NoFileName { path } => {
                let mut s = "Failed to read shell type from path: ".to_string();
                s.append(path.as_str());
                s
            },
            ShellError::UnknownKind { name } => {
                let mut s = "invalid variant: ".to_string();
                s.append(name.as_str());
                s
            },
        }
    }
}

impl Shell {
    /// A shell of the given kind. With no path, it is run by its name, found
    /// through `PATH`.
    pub fn from_kind(kind: ShellKind) -> (r: Shell)
        ensures
            r.kind == kind,
            r.path is None,
    {
        Shell { path: None, kind }
    }

    /// Recognise the shell at `path` (the value of `$SHELL`) by the final
    /// component of the path, letter case aside
    pub fn from_path(path: String) -> (r: Result<Shell, ShellError>)
        ensures
            match path_file_name(path@) {
                None => r matches Err(ShellError::NoFileName { path: p }) && p@ == path@,
                Some(name) => match kind_of_name(name) {
                    Some(kind) => r is Ok && r->Ok_0.kind == kind && option_string_view(r->Ok_0.path) == Some(path@),
                    None => r matches Err(ShellError::UnknownKind { name: n }) && n@ == name,
                },
            },
    {
        let name = match file_name(path.as_str()) {
            Some(name) => name,
            None => {
                return Err(ShellError::NoFileName { path });
            },
        };
        match ShellKind::from_name(name.as_str()) {
            Ok(kind) => Ok(Shell { path: Some(path), kind }),
            Err(_) => Err(ShellError::UnknownKind { name }),
        }
    }

    /// Is the variable `PATH`? A `PATH` value is prepended to the inherited
    /// one instead of replacing it.
    pub fn is_path_variable(variable: &str) -> (r: bool)
        ensures
            r == (variable@ == "PATH"@),
    {
        equals(variable, "PATH")
    }

    /// Put a new directory at the *beginning* of the inherited `PATH`, so it
    /// takes priority over all others. Without an inherited `PATH` the new
    /// directory stands alone.
    pub fn prepend_path(new_path: String, inherited_path: &Option<String>) -> (r: String)
        ensures
            r@ == prepended_path(new_path@, option_string_view(*inherited_path)),
    {
        match inherited_path {
            Some(full_path) => {
                let mut r = new_path;
                r.append(":");
                r.append(full_path.as_str());
                r
            },
            None => new_path,
        }
    }

    /// The shell script that installs the `es` wrapper: the template for this
    /// kind of shell (POSIX for bash and zsh, its own for fish) with
    /// `ENV_SELECT_BINARY` replaced by the path of the env-select binary
    pub fn init_script(&self, posix_template: &str, fish_template: &str, binary_path: &str) -> (r: String)
        ensures
            r@ == replace_all(
                match self.kind {
                    ShellKind::Fish => fish_template@,
                    _ => posix_template@,
                },
                "ENV_SELECT_BINARY"@,
                binary_path@,
            ),
    {
        let template = match self.kind {
            ShellKind::Bash | ShellKind::Zsh => posix_template,
            ShellKind::Fish => fish_template,
        };
        proof {
            reveal_strlit("ENV_SELECT_BINARY");
        }
        replace(template, "ENV_SELECT_BINARY", binary_path)
    }

    /// The shell commands that set each unmasked variable of the
    /// environment, one line each, to be piped to `source`. Names and values
    /// are single-quoted.
    pub fn export(&self, environment: &Environment) -> (r: String)
        ensures
            r@ == export_text(self.kind, environment@.map_values(|e: (Seq<char>, (Seq<char>, bool))| (e.0, e.1.0))),
    {
        let pairs = environment.unmasked();
        let ghost pv = pairs_view(pairs@);
        let mut output = String::new();
        let n = pairs.len();
        let mut i: usize = 0;
        assert(pv.take(0) =~= Seq::<(Seq<char>, Seq<char>)>::empty());
        while i < n
            invariant
                n == pairs@.len(),
                pv == pairs_view(pairs@),
                i <= n,
                output@ == export_text(self.kind, pv.take(i as int)),
            decreases n - i,
        {
            let (variable, value) = &pairs[i];
            match self.kind {
                ShellKind::Bash | ShellKind::Zsh => {
                    output.append("export '");
                    output.append(variable.as_str());
                    output.append("'='");
                    output.append(value.as_str());
                    output.append("'\n");
                },
                ShellKind::Fish => {
                    output.append("set -gx '");
                    output.append(variable.as_str());
                    output.append("' '");
                    output.append(value.as_str());
                    output.append("'\n");
                },
            }
            proof {
                assert(pv.take(i + 1).drop_last() =~= pv.take(i as int));
                assert(pv.take(i + 1).last() == pv[i as int]);
                assert(output@ =~= export_text(self.kind, pv.take(i + 1)));
            }
            i = i + 1;
        }
        assert(pv.take(n as int) =~= pv);
        output
    }

    /// The program that runs this shell: its path where it was detected,
    /// else its name
    pub fn program(&self) -> (r: String)
        ensures
            r@ == match self.path {
                Some(p) => p@,
                None => kind_name(self.kind),
            },
    {
        match &self.path {
            Some(path) => path.clone(),
            None => self.kind.name().to_string(),
        }
    }

    /// The program and arguments that run a command line in this shell:
    /// `<shell> -c <command>`
    pub fn executable(&self, command: &str) -> (r: NativeCommand)
        ensures
            r@.program == match self.path {
                Some(p) => p@,
                None => kind_name(self.kind),
            },
            r@.arguments == seq!["-c"@, command@],
    {
        let mut arguments: Vec<String> = Vec::new();
        arguments.push("-c".to_string());
        arguments.push(command.to_string());
        let r = NativeCommand { program: self.program(), arguments };
        assert(strings_view(r.arguments@) =~= seq!["-c"@, command@]);
        r
    }

    /// The program and arguments that run a side-effect command: a native
    /// command as it is, a shell command through this shell
    pub fn command_executable(&self, command: &SideEffectCommand) -> (r: NativeCommand)
        ensures
            match command@ {
                CommandView::Native(c) => r@ == c,
                CommandView::Shell(s) => r@ == (NativeCommandView {
                    program: match self.path {
                        Some(p) => p@,
                        None => kind_name(self.kind),
                    },
                    arguments: seq!["-c"@, s],
                }),
            },
    {
        match command {
            SideEffectCommand::Native(c) => c.copy(),
            SideEffectCommand::Shell(s) => self.executable(s.as_str()),
        }
    }

    /// The shell, for display: its path where it was detected, else its name
    pub fn display(&self) -> (r: String)
        ensures
            r@ == match self.path {
                Some(p) => p@ + " (from $SHELL)"@,
                None => kind_name(self.kind) + " (from $PATH)"@,
            },
    {
        match &self.path {
            Some(path) => {
                let mut s = path.clone();
                s.append(" (from $SHELL)");
                s
            },
            None => {
                let mut s = self.kind.name().to_string();
                s.append(" (from $PATH)");
                s
            },
        }
    }
}

} // verus!
