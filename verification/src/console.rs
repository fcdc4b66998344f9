//! Lookups by name with helpful errors, and the text of the options offered
//! when the user picks an application or a profile.

use crate::config::name::Name;
use crate::config::source_text;
use crate::config::Application;
use crate::config::Profile;
use crate::ordered::application_entries;
use crate::ordered::applications_get_index;
use crate::ordered::applications_get_index_of;
use crate::ordered::applications_len;
use crate::ordered::profile_entries;
use crate::ordered::profiles_get_index;
use crate::ordered::profiles_get_index_of;
use crate::ordered::profiles_len;
use crate::ordered::variables_get_index;
use crate::ordered::variables_len;
use indexmap::IndexMap;
use vstd::prelude::*;

verus! {

/// The items joined by `separator`
pub open spec fn join(items: Seq<Seq<char>>, separator: Seq<char>) -> Seq<char>
    decreases items.len(),
{
    if items.len() == 0 {
        Seq::empty()
    } else if items.len() == 1 {
        items[0]
    } else {
        join(items.drop_last(), separator) + separator + items.last()
    }
}

/// The message for a key that is not in the map
pub open spec fn unknown_key_text(key: Seq<char>, keys: Seq<Seq<char>>) -> Seq<char> {
    "Unknown key "@ + key + ", options are: "@ + join(keys, ", "@)
}

/// Lookups in a map keyed by name
pub trait MapExt {
    type Value;

    /// The keys, in order
    spec fn key_list(&self) -> Seq<Seq<char>>;

    /// The values, in the order of their keys
    spec fn value_list(&self) -> Seq<Self::Value>;

    /// The value of a key; for a missing key, an error that lists the keys
    fn try_get(&self, key: &Name) -> (r: Result<&Self::Value, String>)
        ensures
            r is Ok <==> self.key_list().contains(key@),
            r matches Ok(v) ==> exists|i: int|
                0 <= i < self.key_list().len() && self.key_list()[i] == key@ && #[trigger] self.value_list()[i] == *v,
            r matches Err(m) ==> m@ == unknown_key_text(key@, self.key_list()),
    ;

    /// The number of keys
    fn key_count(&self) -> (r: usize)
        ensures
            r == self.key_list().len(),
    ;

    /// The keys, separated by `, `
    fn display_keys(&self) -> (r: String)
        ensures
            r@ == join(self.key_list(), ", "@),
    {
        self.display_keys_delimited(", ")
    }

    /// The keys, separated by `separator`
    fn display_keys_delimited(&self, separator: &str) -> (r: String)
        ensures
            r@ == join(self.key_list(), separator@),
    ;
}

impl MapExt for IndexMap<Name, Application> {
    type Value = Application;

    open spec fn key_list(&self) -> Seq<Seq<char>> {
        application_entries(*self).map_values(|e: (Name, Application)| e.0@)
    }

    open spec fn value_list(&self) -> Seq<Application> {
        application_entries(*self).map_values(|e: (Name, Application)| e.1)
    }

    fn try_get(&self, key: &Name) -> (r: Result<&Application, String>) {
        match applications_get_index_of(self, key) {
            Some(i) => {
                let (_, v) = applications_get_index(self, i).unwrap();
                assert(self.key_list()[i as int] == key@);
                assert(self.value_list()[i as int] == *v);
                Ok(v)
            },
            None => {
                assert(!self.key_list().contains(key@)) by {
                    if self.key_list().contains(key@) {
                        let i = choose|i: int| 0 <= i < self.key_list().len() && self.key_list()[i] == key@;
                        assert(application_entries(*self)[i].0@ != key@);
                    }
                }
                let mut m = "Unknown key ".to_string();
                m.append(key.as_str());
                m.append(", options are: ");
                m.append(self.display_keys().as_str());
                Err(m)
            },
        }
    }

    fn key_count(&self) -> (r: usize) {
        applications_len(self)
    }

    fn display_keys_delimited(&self, separator: &str) -> (r: String) {
        let ghost keys = self.key_list();
        let n = applications_len(self);
        let mut r = String::new();
        let mut i: usize = 0;
        while i < n
            invariant
                n == keys.len(),
                keys == self.key_list(),
                i <= n,
                r@ == join(keys.take(i as int), separator@),
            decreases n - i,
        {
            let (k, _) = applications_get_index(self, i).unwrap();
            assert(keys[i as int] == k@);
            if i > 0 {
                r.append(separator);
            }
            r.append(k.as_str());
            proof {
                let t = keys.take(i + 1);
                assert(t.drop_last() =~= keys.take(i as int));
                assert(t.last() == k@);
                if i == 0 {
                    assert(t[0] == k@);
                }
                assert(r@ =~= join(t, separator@));
            }
            i = i + 1;
        }
        assert(keys.take(n as int) =~= keys);
        r
    }
}

impl MapExt for IndexMap<Name, Profile> {
    type Value = Profile;

    open spec fn key_list(&self) -> Seq<Seq<char>> {
        profile_entries(*self).map_values(|e: (Name, Profile)| e.0@)
    }

    open spec fn value_list(&self) -> Seq<Profile> {
        profile_entries(*self).map_values(|e: (Name, Profile)| e.1)
    }

    fn try_get(&self, key: &Name) -> (r: Result<&Profile, String>) {
        match profiles_get_index_of(self, key) {
            Some(i) => {
                let (_, v) = profiles_get_index(self, i).unwrap();
                assert(self.key_list()[i as int] == key@);
                assert(self.value_list()[i as int] == *v);
                Ok(v)
            },
            None => {
                assert(!self.key_list().contains(key@)) by {
                    if self.key_list().contains(key@) {
                        let i = choose|i: int| 0 <= i < self.key_list().len() && self.key_list()[i] == key@;
                        assert(profile_entries(*self)[i].0@ != key@);
                    }
                }
                let mut m = "Unknown key ".to_string();
                m.append(key.as_str());
                m.append(", options are: ");
                m.append(self.display_keys().as_str());
                Err(m)
            },
        }
    }

    fn key_count(&self) -> (r: usize) {
        profiles_len(self)
    }

    fn display_keys_delimited(&self, separator: &str) -> (r: String) {
        let ghost keys = self.key_list();
        let n = profiles_len(self);
        let mut r = String::new();
        let mut i: usize = 0;
        while i < n
            invariant
                n == keys.len(),
                keys == self.key_list(),
                i <= n,
                r@ == join(keys.take(i as int), separator@),
            decreases n - i,
        {
            let (k, _) = profiles_get_index(self, i).unwrap();
            assert(keys[i as int] == k@);
            if i > 0 {
                r.append(separator);
            }
            r.append(k.as_str());
            proof {
                let t = keys.take(i + 1);
                assert(t.drop_last() =~= keys.take(i as int));
                assert(t.last() == k@);
                if i == 0 {
                    assert(t[0] == k@);
                }
                assert(r@ =~= join(t, separator@));
            }
            i = i + 1;
        }
        assert(keys.take(n as int) =~= keys);
        r
    }
}

/// What to do before showing a selection prompt: the named option where a
/// name was given (`Ok(Some(..))`), the prompt itself (`Ok(None)`), or an
/// error for an unknown name or when there is nothing to choose from
pub fn preselect<'a, M: MapExt>(options: &'a M, default_name: Option<&Name>, self_name: &str) -> (r: Result<Option<&'a M::Value>, String>)
    ensures
        match default_name {
            Some(name) => match r {
                Ok(Some(v)) => exists|i: int|
                    0 <= i < options.key_list().len() && options.key_list()[i] == name@ && #[trigger] options.value_list()[i] == *v,
                Ok(None) => false,
                Err(m) => !options.key_list().contains(name@) && m@ == unknown_key_text(name@, options.key_list()),
            },
            None => match r {
                Ok(Some(_)) => false,
                Ok(None) => options.key_list().len() > 0,
                Err(m) => options.key_list().len() == 0 && m@ == "No "@ + self_name@ + "s to choose from"@,
            },
        },
        default_name matches Some(name) ==> (r is Ok <==> options.key_list().contains(name@)),
{
    match default_name {
        Some(name) => match options.try_get(name) {
            Ok(v) => Ok(Some(v)),
            Err(m) => Err(m),
        },
        None => {
            if options.key_count() == 0 {
                let mut m = "No ".to_string();
                m.append(self_name);
                m.append("s to choose from");
                Err(m)
            } else {
                Ok(None)
            }
        },
    }
}

// ---------------------------------------------------------------------------
// Prompt options
// ---------------------------------------------------------------------------

/// Each item on a line of its own
pub open spec fn lines(items: Seq<Seq<char>>) -> Seq<char>
    decreases items.len(),
{
    if items.len() == 0 {
        Seq::empty()
    } else {
        lines(items.drop_last()) + items.last() + "\n"@
    }
}

/// How a type is shown in a selection prompt
pub trait Prompt {
    /// What the options are called
    fn self_name() -> &'static str;

    /// The text of one option, under its name
    fn format_option(&self, name: &Name) -> String;
}

impl Prompt for Application {
    fn self_name() -> (r: &'static str)
        ensures
            r@ == "application"@,
    {
        "application"
    }

    /// The name, then the application's profile names, a line each
    fn format_option(&self, name: &Name) -> (r: String)
        ensures
            r@ == "=== "@ + name@ + " ===\n"@ + lines(self@.map_values(|e: (Seq<char>, crate::config::ProfileView)| e.0)),
    {
        let mut buffer = "=== ".to_string();
        buffer.append(name.as_str());
        buffer.append(" ===\n");
        let ghost head = buffer@;
        let ghost names = self@.map_values(|e: (Seq<char>, crate::config::ProfileView)| e.0);
        let n = profiles_len(&self.profiles);
        let mut i: usize = 0;
        while i < n
            invariant
                n == names.len(),
                names == self@.map_values(|e: (Seq<char>, crate::config::ProfileView)| e.0),
                i <= n,
                buffer@ == head + lines(names.take(i as int)),
            decreases n - i,
        {
            let (k, _) = profiles_get_index(&self.profiles, i).unwrap();
            assert(names[i as int] == k@);
            buffer.append(k.as_str());
            buffer.append("\n");
            proof {
                assert(names.take(i + 1).drop_last() =~= names.take(i as int));
                assert(buffer@ =~= head + lines(names.take(i + 1)));
            }
            i = i + 1;
        }
        assert(names.take(n as int) =~= names);
        buffer
    }
}

impl Prompt for Profile {
    fn self_name() -> (r: &'static str)
        ensures
            r@ == "profile"@,
    {
        "profile"
    }

    /// The name, then each variable with its value source, a line each
    fn format_option(&self, name: &Name) -> (r: String)
        ensures
            r@ == "=== "@ + name@ + " ===\n"@ + lines(
                self@.variables.map_values(|e: (Seq<char>, crate::config::SourceView)| e.0 + " = "@ + source_text(e.1)),
            ),
    {
        let mut buffer = "=== ".to_string();
        buffer.append(name.as_str());
        buffer.append(" ===\n");
        let ghost head = buffer@;
        let ghost items = self@.variables.map_values(|e: (Seq<char>, crate::config::SourceView)| e.0 + " = "@ + source_text(e.1));
        let n = variables_len(&self.variables);
        let mut i: usize = 0;
        while i < n
            invariant
                n == items.len(),
                items == self@.variables.map_values(|e: (Seq<char>, crate::config::SourceView)| e.0 + " = "@ + source_text(e.1)),
                i <= n,
                buffer@ == head + lines(items.take(i as int)),
            decreases n - i,
        {
            let (k, v) = variables_get_index(&self.variables, i).unwrap();
            assert(items[i as int] == k@ + " = "@ + source_text(v@));
            buffer.append(k.as_str());
            buffer.append(" = ");
            buffer.append(v.display().as_str());
            buffer.append("\n");
            proof {
                assert(items.take(i + 1).drop_last() =~= items.take(i as int));
                assert(buffer@ =~= head + lines(items.take(i + 1)));
            }
            i = i + 1;
        }
        assert(items.take(n as int) =~= items);
        buffer
    }
}

} // verus!
