//! Application/profile names and the references between profiles.

use crate::text::is_white_space;
use crate::text::is_whitespace;
use vstd::prelude::*;

verus! {

/// An application or profile name. Names are validated on creation: they are
/// non-empty, have no leading/trailing whitespace and contain none of the
/// reserved characters `\ / * ? !`.
#[derive(Debug, Hash)]
pub struct Name(String);

/// Why a string is not a valid [Name]
#[derive(Clone, Copy, Debug, PartialEq, Eq, Structural)]
pub enum NameError {
    Empty,
    Whitespace,
    Reserved,
}

/// Characters that may not appear in a name
pub open spec fn is_reserved_char(c: char) -> bool {
    c == '\\' || c == '/' || c == '*' || c == '?' || c == '!'
}

/// The outcome of validating `s` as a name
pub open spec fn name_check(s: Seq<char>) -> Result<(), NameError> {
    if s.len() == 0 {
        Err(NameError::Empty)
    } else if is_white_space(s[0]) || is_white_space(s[s.len() - 1]) {
        Err(NameError::Whitespace)
    } else if exists|i: int| 0 <= i < s.len() && is_reserved_char(#[trigger] s[i]) {
        Err(NameError::Reserved)
    } else {
        Ok(())
    }
}

/// A name holding any of the characters `\`, `/`, `*`, `?` or `!` is
/// refused, as containing a reserved character where it is otherwise well
/// formed; a non-empty name without them and without leading or trailing
/// whitespace is accepted
pub proof fn lemma_reserved_characters_refused(s: Seq<char>)
    ensures
        (exists|i: int| 0 <= i < s.len() && (s[i] == '\\' || s[i] == '/' || s[i] == '*' || s[i] == '?' || s[i] == '!'))
            ==> name_check(s) is Err,
        (exists|i: int| 0 <= i < s.len() && (s[i] == '\\' || s[i] == '/' || s[i] == '*' || s[i] == '?' || s[i] == '!'))
            && !is_white_space(s[0]) && !is_white_space(s[s.len() - 1]) ==> name_check(s) == Err::<(), NameError>(NameError::Reserved),
        s.len() > 0 && !is_white_space(s[0]) && !is_white_space(s[s.len() - 1])
            && (forall|i: int| 0 <= i < s.len() ==> !(s[i] == '\\' || s[i] == '/' || s[i] == '*' || s[i] == '?' || s[i] == '!'))
            ==> name_check(s) is Ok,
{
    if exists|i: int| 0 <= i < s.len() && (s[i] == '\\' || s[i] == '/' || s[i] == '*' || s[i] == '?' || s[i] == '!') {
        let i = choose|i: int| 0 <= i < s.len() && (s[i] == '\\' || s[i] == '/' || s[i] == '*' || s[i] == '?' || s[i] == '!');
        assert(is_reserved_char(s[i]));
    }
    if forall|i: int| 0 <= i < s.len() ==> !(s[i] == '\\' || s[i] == '/' || s[i] == '*' || s[i] == '?' || s[i] == '!') {
        assert forall|i: int| 0 <= i < s.len() implies !is_reserved_char(#[trigger] s[i]) by {}
    }
}

impl NameError {
    /// The error message
    pub fn message(&self) -> (r: &'static str)
        ensures
            r@ == match self {
                NameError::Empty => "Invalid name: empty string"@,
                NameError::Whitespace => "Invalid name: contains leading/trailing whitespace"@,
                NameError::Reserved => "Invalid name: contains one of reserved characters \\/*?!"@,
            },
    {
        match self {
            NameError::Empty => "Invalid name: empty string",
            NameError::Whitespace => "Invalid name: contains leading/trailing whitespace",
            NameError::Reserved => "Invalid name: contains one of reserved characters \\/*?!",
        }
    }
}

impl View for Name {
    type V = Seq<char>;

    closed spec fn view(&self) -> Seq<char> {
        self.0@
    }
}

impl Name {
    /// Every name was validated when it was created
    pub open spec fn valid(&self) -> bool {
        name_check(self@) is Ok
    }

    /// Validate and build a name
    pub fn from_str(name: &str) -> (r: Result<Name, NameError>)
        ensures
            match name_check(name@) {
                Ok(()) => r is Ok && r->Ok_0@ == name@,
                Err(e) => r == Err::<Name, NameError>(e),
            },
    {
        let len = name.unicode_len();
        if len == 0 {
            return Err(NameError::Empty);
        }
        if is_whitespace(name.get_char(0)) || is_whitespace(name.get_char(len - 1)) {
            return Err(NameError::Whitespace);
        }
        let mut i: usize = 0;
        while i < len
            invariant
                len == name@.len(),
                len > 0,
                !is_white_space(name@[0]),
                !is_white_space(name@[len - 1]),
                i <= len,
                forall|j: int| 0 <= j < i ==> !is_reserved_char(#[trigger] name@[j]),
            decreases len - i,
        {
            let c = name.get_char(i);
            if c == '\\' || c == '/' || c == '*' || c == '?' || c == '!' {
                assert(is_reserved_char(name@[i as int]));
                return Err(NameError::Reserved);
            }
            i = i + 1;
        }
        Ok(Name(name.to_string()))
    }

    /// The name as a string slice
    pub fn as_str(&self) -> (r: &str)
        ensures
            r@ == self@,
    {
        self.0.as_str()
    }
}

impl Clone for Name {
    fn clone(&self) -> (r: Self)
        ensures
            r == *self,
    {
        Name(self.0.clone())
    }
}

impl PartialEq for Name {
    fn eq(&self, other: &Self) -> (r: bool) {
        self.0 == other.0
    }
}

impl Eq for Name {

}

impl vstd::std_specs::cmp::PartialEqSpecImpl for Name {
    open spec fn obeys_eq_spec() -> bool {
        true
    }

    open spec fn eq_spec(&self, other: &Name) -> bool {
        self@ == other@
    }
}

} // verus!

verus! {

/// Pointer to a profile, written `[application/]profile`. Without an
/// application name, the application of the referring profile is meant.
#[derive(Debug, Hash)]
pub struct ProfileReference {
    application: Option<Name>,
    profile: Name,
}

/// Model of a [ProfileReference]
pub struct RefView {
    pub application: Option<Seq<char>>,
    pub profile: Seq<char>,
}

pub open spec fn option_name_view(o: Option<Name>) -> Option<Seq<char>> {
    match o {
        Some(n) => Some(n@),
        None => None,
    }
}

impl View for ProfileReference {
    type V = RefView;

    closed spec fn view(&self) -> RefView {
        RefView { application: option_name_view(self.application), profile: self.profile@ }
    }
}

/// `i` is the position of the first `c` in `s`
pub open spec fn is_first_index_of(s: Seq<char>, c: char, i: int) -> bool {
    &&& 0 <= i < s.len()
    &&& s[i] == c
    &&& forall|j: int| 0 <= j < i ==> s[j] != c
}

/// Position of the first `c` in `s`, if any
pub open spec fn first_index_of(s: Seq<char>, c: char) -> Option<int> {
    if exists|i: int| is_first_index_of(s, c, i) {
        Some(choose|i: int| is_first_index_of(s, c, i))
    } else {
        None
    }
}

/// The outcome of parsing `s` as `[application/]profile`: the text is split at
/// its first `/`, and each side must be a valid name (application first).
pub open spec fn reference_parse(s: Seq<char>) -> Result<RefView, NameError> {
    match first_index_of(s, '/') {
        None => match name_check(s) {
            Ok(()) => Ok(RefView { application: None, profile: s }),
            Err(e) => Err(e),
        },
        Some(i) => {
            let application = s.subrange(0, i);
            let profile = s.subrange(i + 1, s.len() as int);
            match name_check(application) {
                Err(e) => Err(e),
                Ok(()) => match name_check(profile) {
                    Err(e) => Err(e),
                    Ok(()) => Ok(RefView { application: Some(application), profile }),
                },
            }
        },
    }
}

/// The text form of a reference: `application/profile` or `profile`
pub open spec fn reference_text(r: RefView) -> Seq<char> {
    match r.application {
        Some(a) => a + seq!['/'] + r.profile,
        None => r.profile,
    }
}

proof fn lemma_first_index_unique(s: Seq<char>, c: char, i: int, k: int)
    requires
        is_first_index_of(s, c, i),
        is_first_index_of(s, c, k),
    ensures
        i == k,
{
    if i < k {
        assert(s[i] != c);
    } else if k < i {
        assert(s[k] != c);
    }
}

/// Find the first occurrence of `c` in `s`
pub fn find_char(s: &str, c: char) -> (r: Option<usize>)
    ensures
        match r {
            Some(i) => first_index_of(s@, c) == Some(i as int),
            None => first_index_of(s@, c) is None,
        },
{
    let len = s.unicode_len();
    let mut i: usize = 0;
    while i < len
        invariant
            len == s@.len(),
            i <= len,
            forall|j: int| 0 <= j < i ==> s@[j] != c,
        decreases len - i,
    {
        if s.get_char(i) == c {
            assert(is_first_index_of(s@, c, i as int));
            let ghost k = choose|k: int| is_first_index_of(s@, c, k);
            proof {
                lemma_first_index_unique(s@, c, i as int, k);
            }
            return Some(i);
        }
        i = i + 1;
    }
    assert forall|k: int| !is_first_index_of(s@, c, k) by {
        if 0 <= k < s@.len() && s@[k] == c {
            assert(s@[k] != c);
        }
    }
    None
}

impl ProfileReference {
    /// Build a reference from its parts
    pub fn new(application: Option<Name>, profile: Name) -> (r: ProfileReference)
        ensures
            r@ == (RefView { application: option_name_view(application), profile: profile@ }),
    {
        ProfileReference { application, profile }
    }

    /// Is this an absolute reference, i.e. does it include an application
    /// name?
    pub fn is_qualified(&self) -> (r: bool)
        ensures
            r == self@.application is Some,
    {
        self.application.is_some()
    }

    /// The application part, if any
    pub fn application(&self) -> (r: Option<&Name>)
        ensures
            option_name_view(match r { Some(n) => Some(*n), None => None }) == self@.application,
    {
        self.application.as_ref()
    }

    /// The profile part
    pub fn profile(&self) -> (r: &Name)
        ensures
            r@ == self@.profile,
    {
        &self.profile
    }

    /// Parse `[application/]profile`
    pub fn from_str(path: &str) -> (r: Result<ProfileReference, NameError>)
        ensures
            match reference_parse(path@) {
                Ok(v) => r is Ok && r->Ok_0@ == v,
                Err(e) => r == Err::<ProfileReference, NameError>(e),
            },
    {
        match find_char(path, '/') {
            None => {
                let profile = Name::from_str(path)?;
                Ok(ProfileReference { application: None, profile })
            },
            Some(i) => {
                let len = path.unicode_len();
                let application = Name::from_str(path.substring_char(0, i))?;
                let profile = Name::from_str(path.substring_char(i + 1, len))?;
                Ok(ProfileReference { application: Some(application), profile })
            },
        }
    }

    /// The text form, `application/profile` or `profile`
    pub fn to_string(&self) -> (r: String)
        ensures
            r@ == reference_text(self@),
    {
        match &self.application {
            Some(application) => {
                let mut s = application.as_str().to_string();
                s.append("/");
                s.append(self.profile.as_str());
                proof {
                    reveal_strlit("/");
                }
                s
            },
            None => self.profile.as_str().to_string(),
        }
    }

    /// Qualify the reference: a reference without an application gets the
    /// given one; a qualified reference is unchanged.
    pub fn qualify(&self, application: &Name) -> (r: ProfileReference)
        ensures
            r@.profile == self@.profile,
            r@.application == match self@.application {
                Some(a) => Some(a),
                None => Some(application@),
            },
    {
        match &self.application {
            Some(a) => ProfileReference { application: Some(a.clone()), profile: self.profile.clone() },
            None => ProfileReference {
                application: Some(application.clone()),
                profile: self.profile.clone(),
            },
        }
    }
}

impl Clone for ProfileReference {
    fn clone(&self) -> (r: Self)
        ensures
            r@ == self@,
    {
        let application = match &self.application {
            Some(a) => Some(a.clone()),
            None => None,
        };
        ProfileReference { application, profile: self.profile.clone() }
    }
}

impl PartialEq for ProfileReference {
    fn eq(&self, other: &Self) -> (r: bool) {
        let same_application = match (&self.application, &other.application) {
            (Some(a), Some(b)) => a == b,
            (None, None) => true,
            _ => false,
        };
        same_application && self.profile == other.profile
    }
}

impl Eq for ProfileReference {

}

impl vstd::std_specs::cmp::PartialEqSpecImpl for ProfileReference {
    open spec fn obeys_eq_spec() -> bool {
        true
    }

    open spec fn eq_spec(&self, other: &ProfileReference) -> bool {
        self@ == other@
    }
}


/// Reading a reference back from its text gives the text it was read from
pub proof fn lemma_reference_text_of_parse(s: Seq<char>)
    ensures
        reference_parse(s) matches Ok(r) ==> reference_text(r) == s,
{
    match first_index_of(s, '/') {
        None => {},
        Some(i) => {
            let c = choose|i: int| is_first_index_of(s, '/', i);
            assert(is_first_index_of(s, '/', c));
            assert(s.subrange(0, i) + seq!['/'] + s.subrange(i + 1, s.len() as int) =~= s);
        },
    }
}

/// A reference made of valid names reads back from its text unchanged
pub proof fn lemma_parse_of_reference_text(r: RefView)
    requires
        name_check(r.profile) is Ok,
        r.application matches Some(a) ==> name_check(a) is Ok,
    ensures
        reference_parse(reference_text(r)) == Ok::<RefView, NameError>(r),
{
    let t = reference_text(r);
    match r.application {
        None => {
            assert forall|i: int| !is_first_index_of(t, '/', i) by {
                if 0 <= i < t.len() && t[i] == '/' {
                    assert(is_reserved_char(t[i]));
                }
            }
        },
        Some(a) => {
            let n = a.len() as int;
            assert(t[n] == '/');
            assert forall|j: int| 0 <= j < n implies t[j] != '/' by {
                assert(t[j] == a[j]);
                if a[j] == '/' {
                    assert(is_reserved_char(a[j]));
                }
            }
            assert(is_first_index_of(t, '/', n));
            let c = choose|i: int| is_first_index_of(t, '/', i);
            lemma_first_index_unique(t, '/', n, c);
            assert(t.subrange(0, n) =~= a);
            assert(t.subrange(n + 1, t.len() as int) =~= r.profile);
        },
    }
}

} // verus!
