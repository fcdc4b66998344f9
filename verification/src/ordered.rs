//! The insertion-ordered maps and sets of the `indexmap` crate, as the
//! configuration model uses them.
//!
//! Each instantiation gets a name for its contents (the entries, in insertion
//! order) and a small wrapper per method the logic calls. The contracts state
//! what the `indexmap` source shows: keys are unique, `insert` of a present key
//! replaces the value in place and keeps the key and its position, `insert` of
//! a new key appends it, `pop` removes the last entry, and `swap_remove` moves
//! the last entry into the removed one's place. Keys are compared by their
//! text, which is what the `Hash`/`Eq` impls of the key types compare.

use crate::config::name::Name;
use crate::config::name::ProfileReference;
use crate::config::name::RefView;
use crate::config::Application;
use crate::config::ApplicationView;
use crate::config::Profile;
use crate::config::ProfileView;
use crate::config::SourceView;
use crate::config::ValueSource;
use crate::environment::ResolvedValue;
use indexmap::IndexMap;
use indexmap::IndexSet;
use vstd::prelude::*;

verus! {

#[verifier::external_type_specification]
#[verifier::external_body]
#[verifier::reject_recursive_types(K)]
#[verifier::reject_recursive_types(V)]
#[verifier::reject_recursive_types(S)]
pub struct ExIndexMap<K, V, S>(indexmap::IndexMap<K, V, S>);

#[verifier::external_type_specification]
#[verifier::external_body]
#[verifier::reject_recursive_types(T)]
#[verifier::reject_recursive_types(S)]
pub struct ExIndexSet<T, S>(indexmap::IndexSet<T, S>);

// ---------------------------------------------------------------------------
// Applications of a config: IndexMap<Name, Application>
// ---------------------------------------------------------------------------

/// The entries of an application map, in order
pub uninterp spec fn application_entries(m: IndexMap<Name, Application>) -> Seq<(Name, Application)>;

pub open spec fn applications_view(m: IndexMap<Name, Application>) -> Seq<(Seq<char>, ApplicationView)> {
    application_entries(m).map_values(|e: (Name, Application)| (e.0@, e.1@))
}

/// `IndexMap::new`: an empty map
#[verifier::external_body]
pub(crate) fn applications_new() -> (m: IndexMap<Name, Application>)
    ensures
        application_entries(m) == Seq::<(Name, Application)>::empty(),
{
    IndexMap::new()
}

/// `IndexMap::len`: the number of entries
#[verifier::external_body]
pub(crate) fn applications_len(m: &IndexMap<Name, Application>) -> (n: usize)
    ensures
        n == application_entries(*m).len(),
{
    m.len()
}

/// `IndexMap::get_index`: the entry at a position; its key occurs nowhere else
#[verifier::external_body]
pub(crate) fn applications_get_index(m: &IndexMap<Name, Application>, i: usize) -> (r: Option<(&Name, &Application)>)
    ensures
        i < application_entries(*m).len() ==> r == Some(
            (&application_entries(*m)[i as int].0, &application_entries(*m)[i as int].1),
        ),
        r matches Some(e) ==> (forall|j: int|
            0 <= j < application_entries(*m).len() && j != i ==> #[trigger] application_entries(*m)[j].0@ != e.0@),
        i >= application_entries(*m).len() ==> r is None,
{
    m.get_index(i)
}

/// `IndexMap::get_index_of`: the position of a key, if present
#[verifier::external_body]
pub(crate) fn applications_get_index_of(m: &IndexMap<Name, Application>, key: &Name) -> (r: Option<usize>)
    ensures
        match r {
            Some(i) => i < application_entries(*m).len() && application_entries(*m)[i as int].0@
                == key@ && forall|j: int|
                0 <= j < application_entries(*m).len() && j != i ==> #[trigger] application_entries(
                    *m,
                )[j].0@ != key@,
            None => forall|j: int|
                0 <= j < application_entries(*m).len() ==> #[trigger] application_entries(
                    *m,
                )[j].0@ != key@,
        },
{
    m.get_index_of(key)
}

/// `IndexMap::insert`: a present key keeps its position and gets the new
/// value; a new key is appended
#[verifier::external_body]
pub(crate) fn applications_insert(m: &mut IndexMap<Name, Application>, key: Name, value: Application)
    ensures
        forall|i: int|
            0 <= i < application_entries(*old(m)).len() && #[trigger] application_entries(
                *old(m),
            )[i].0@ == key@ ==> application_entries(*final(m)) == application_entries(
                *old(m),
            ).update(i, (application_entries(*old(m))[i].0, value)),
        (forall|i: int|
            0 <= i < application_entries(*old(m)).len() ==> #[trigger] application_entries(
                *old(m),
            )[i].0@ != key@) ==> application_entries(*final(m)) == application_entries(
            *old(m),
        ).push((key, value)),
{
    m.insert(key, value);
}

// ---------------------------------------------------------------------------
// Profiles of an application: IndexMap<Name, Profile>
// ---------------------------------------------------------------------------

/// The entries of a profile map, in order
pub uninterp spec fn profile_entries(m: IndexMap<Name, Profile>) -> Seq<(Name, Profile)>;

pub open spec fn profiles_view(m: IndexMap<Name, Profile>) -> Seq<(Seq<char>, ProfileView)> {
    profile_entries(m).map_values(|e: (Name, Profile)| (e.0@, e.1@))
}

/// `IndexMap::new`: an empty map
#[verifier::external_body]
pub(crate) fn profiles_new() -> (m: IndexMap<Name, Profile>)
    ensures
        profile_entries(m) == Seq::<(Name, Profile)>::empty(),
{
    IndexMap::new()
}

/// `IndexMap::len`: the number of entries
#[verifier::external_body]
pub(crate) fn profiles_len(m: &IndexMap<Name, Profile>) -> (n: usize)
    ensures
        n == profile_entries(*m).len(),
{
    m.len()
}

/// `IndexMap::get_index`: the entry at a position; its key occurs nowhere else
#[verifier::external_body]
pub(crate) fn profiles_get_index(m: &IndexMap<Name, Profile>, i: usize) -> (r: Option<(&Name, &Profile)>)
    ensures
        i < profile_entries(*m).len() ==> r == Some(
            (&profile_entries(*m)[i as int].0, &profile_entries(*m)[i as int].1),
        ),
        r matches Some(e) ==> (forall|j: int|
            0 <= j < profile_entries(*m).len() && j != i ==> #[trigger] profile_entries(*m)[j].0@ != e.0@),
        i >= profile_entries(*m).len() ==> r is None,
{
    m.get_index(i)
}

/// `IndexMap::get_index_of`: the position of a key, if present
#[verifier::external_body]
pub(crate) fn profiles_get_index_of(m: &IndexMap<Name, Profile>, key: &Name) -> (r: Option<usize>)
    ensures
        match r {
            Some(i) => i < profile_entries(*m).len() && profile_entries(*m)[i as int].0@ == key@
                && forall|j: int|
                0 <= j < profile_entries(*m).len() && j != i ==> #[trigger] profile_entries(
                    *m,
                )[j].0@ != key@,
            None => forall|j: int|
                0 <= j < profile_entries(*m).len() ==> #[trigger] profile_entries(*m)[j].0@
                    != key@,
        },
{
    m.get_index_of(key)
}

/// `IndexMap::insert`: a present key keeps its position and gets the new
/// value; a new key is appended
#[verifier::external_body]
pub(crate) fn profiles_insert(m: &mut IndexMap<Name, Profile>, key: Name, value: Profile)
    ensures
        forall|i: int|
            0 <= i < profile_entries(*old(m)).len() && #[trigger] profile_entries(
                *old(m),
            )[i].0@ == key@ ==> profile_entries(*final(m)) == profile_entries(*old(m)).update(
                i,
                (profile_entries(*old(m))[i].0, value),
            ),
        (forall|i: int|
            0 <= i < profile_entries(*old(m)).len() ==> #[trigger] profile_entries(
                *old(m),
            )[i].0@ != key@) ==> profile_entries(*final(m)) == profile_entries(*old(m)).push(
            (key, value),
        ),
{
    m.insert(key, value);
}

// ---------------------------------------------------------------------------
// Variables of a profile: IndexMap<String, ValueSource>
// ---------------------------------------------------------------------------

/// The entries of a variable map, in order
pub uninterp spec fn variable_entries(m: IndexMap<String, ValueSource>) -> Seq<(String, ValueSource)>;

pub open spec fn variables_view(m: IndexMap<String, ValueSource>) -> Seq<(Seq<char>, SourceView)> {
    variable_entries(m).map_values(|e: (String, ValueSource)| (e.0@, e.1@))
}

/// `IndexMap::new`: an empty map
#[verifier::external_body]
pub(crate) fn variables_new() -> (m: IndexMap<String, ValueSource>)
    ensures
        variable_entries(m) == Seq::<(String, ValueSource)>::empty(),
{
    IndexMap::new()
}

/// `IndexMap::len`: the number of entries
#[verifier::external_body]
pub(crate) fn variables_len(m: &IndexMap<String, ValueSource>) -> (n: usize)
    ensures
        n == variable_entries(*m).len(),
{
    m.len()
}

/// `IndexMap::get_index`: the entry at a position; its key occurs nowhere else
#[verifier::external_body]
pub(crate) fn variables_get_index(m: &IndexMap<String, ValueSource>, i: usize) -> (r: Option<(&String, &ValueSource)>)
    ensures
        i < variable_entries(*m).len() ==> r == Some(
            (&variable_entries(*m)[i as int].0, &variable_entries(*m)[i as int].1),
        ),
        r matches Some(e) ==> (forall|j: int|
            0 <= j < variable_entries(*m).len() && j != i ==> #[trigger] variable_entries(*m)[j].0@ != e.0@),
        i >= variable_entries(*m).len() ==> r is None,
{
    m.get_index(i)
}

/// `IndexMap::insert`: a present key keeps its position and gets the new
/// value; a new key is appended
#[verifier::external_body]
pub(crate) fn variables_insert(m: &mut IndexMap<String, ValueSource>, key: String, value: ValueSource)
    ensures
        forall|i: int|
            0 <= i < variable_entries(*old(m)).len() && #[trigger] variable_entries(
                *old(m),
            )[i].0@ == key@ ==> variable_entries(*final(m)) == variable_entries(*old(m)).update(
                i,
                (variable_entries(*old(m))[i].0, value),
            ),
        (forall|i: int|
            0 <= i < variable_entries(*old(m)).len() ==> #[trigger] variable_entries(
                *old(m),
            )[i].0@ != key@) ==> variable_entries(*final(m)) == variable_entries(*old(m)).push(
            (key, value),
        ),
{
    m.insert(key, value);
}

// ---------------------------------------------------------------------------
// Sets of profile references: IndexSet<ProfileReference>
// ---------------------------------------------------------------------------

/// The members of a reference set, in order
pub uninterp spec fn reference_entries(s: IndexSet<ProfileReference>) -> Seq<ProfileReference>;

pub open spec fn references_view(s: IndexSet<ProfileReference>) -> Seq<RefView> {
    reference_entries(s).map_values(|r: ProfileReference| r@)
}

/// `IndexSet::new`: an empty set
#[verifier::external_body]
pub(crate) fn references_new() -> (s: IndexSet<ProfileReference>)
    ensures
        reference_entries(s) == Seq::<ProfileReference>::empty(),
{
    IndexSet::new()
}

/// `IndexSet::len`: the number of members
#[verifier::external_body]
pub(crate) fn references_len(s: &IndexSet<ProfileReference>) -> (n: usize)
    ensures
        n == reference_entries(*s).len(),
{
    s.len()
}

/// `IndexSet::get_index`: the member at a position; it occurs nowhere else
#[verifier::external_body]
pub(crate) fn references_get_index(s: &IndexSet<ProfileReference>, i: usize) -> (r: Option<&ProfileReference>)
    ensures
        i < reference_entries(*s).len() ==> r == Some(&reference_entries(*s)[i as int]),
        r matches Some(e) ==> (forall|j: int|
            0 <= j < reference_entries(*s).len() && j != i ==> #[trigger] reference_entries(*s)[j]@ != e@),
        i >= reference_entries(*s).len() ==> r is None,
{
    s.get_index(i)
}

/// `IndexSet::contains`: is an equal member present?
#[verifier::external_body]
pub(crate) fn references_contains(s: &IndexSet<ProfileReference>, value: &ProfileReference) -> (r: bool)
    ensures
        r == references_view(*s).contains(value@),
{
    s.contains(value)
}

/// `IndexSet::insert`: a new member is appended; a present one leaves the set
/// unchanged. Returns whether it was new.
#[verifier::external_body]
pub(crate) fn references_insert(s: &mut IndexSet<ProfileReference>, value: ProfileReference) -> (r: bool)
    ensures
        r == !references_view(*old(s)).contains(value@),
        r ==> reference_entries(*final(s)) == reference_entries(*old(s)).push(value),
        !r ==> reference_entries(*final(s)) == reference_entries(*old(s)),
{
    s.insert(value)
}

// ---------------------------------------------------------------------------
// Profiles awaiting inheritance: IndexMap<ProfileReference, IndexSet<ProfileReference>>
// ---------------------------------------------------------------------------

/// The entries of a map from profile to its unmerged parents, in order
pub uninterp spec fn pending_entries(m: IndexMap<ProfileReference, IndexSet<ProfileReference>>) -> Seq<(ProfileReference, IndexSet<ProfileReference>)>;

pub open spec fn pending_view(m: IndexMap<ProfileReference, IndexSet<ProfileReference>>) -> Seq<(RefView, Seq<RefView>)> {
    pending_entries(m).map_values(|e: (ProfileReference, IndexSet<ProfileReference>)| (e.0@, references_view(e.1)))
}

/// `IndexMap::new`: an empty map
#[verifier::external_body]
pub(crate) fn pending_new() -> (m: IndexMap<ProfileReference, IndexSet<ProfileReference>>)
    ensures
        pending_entries(m) == Seq::<(ProfileReference, IndexSet<ProfileReference>)>::empty(),
{
    IndexMap::new()
}

/// `IndexMap::insert`: a present key keeps its position and gets the new
/// value; a new key is appended
#[verifier::external_body]
pub(crate) fn pending_insert(m: &mut IndexMap<ProfileReference, IndexSet<ProfileReference>>, key: ProfileReference, value: IndexSet<ProfileReference>)
    ensures
        forall|i: int|
            0 <= i < pending_entries(*old(m)).len() && #[trigger] pending_entries(*old(m))[i].0@ == key@
                ==> pending_entries(*final(m)) == pending_entries(*old(m)).update(i, (pending_entries(*old(m))[i].0, value)),
        (forall|i: int|
            0 <= i < pending_entries(*old(m)).len() ==> #[trigger] pending_entries(*old(m))[i].0@ != key@)
            ==> pending_entries(*final(m)) == pending_entries(*old(m)).push((key, value)),
{
    m.insert(key, value);
}

/// `IndexMap::pop`: remove and return the last entry
#[verifier::external_body]
pub(crate) fn pending_pop(m: &mut IndexMap<ProfileReference, IndexSet<ProfileReference>>) -> (r: Option<(ProfileReference, IndexSet<ProfileReference>)>)
    ensures
        pending_entries(*old(m)).len() > 0 ==> r == Some(pending_entries(*old(m)).last())
            && pending_entries(*final(m)) == pending_entries(*old(m)).drop_last(),
        pending_entries(*old(m)).len() == 0 ==> r is None && pending_entries(*final(m)) == pending_entries(*old(m)),
{
    m.pop()
}

/// `IndexMap::swap_remove`: remove the entry of a key by moving the last entry
/// into its place; return its value
#[verifier::external_body]
pub(crate) fn pending_swap_remove(m: &mut IndexMap<ProfileReference, IndexSet<ProfileReference>>, key: &ProfileReference) -> (r: Option<IndexSet<ProfileReference>>)
    ensures
        forall|i: int|
            0 <= i < pending_entries(*old(m)).len() && #[trigger] pending_entries(*old(m))[i].0@ == key@
                ==> r == Some(pending_entries(*old(m))[i].1) && pending_entries(*final(m)) == pending_entries(*old(m)).update(
                i, pending_entries(*old(m)).last()).drop_last(),
        (forall|i: int|
            0 <= i < pending_entries(*old(m)).len() ==> #[trigger] pending_entries(*old(m))[i].0@ != key@)
            ==> r is None && pending_entries(*final(m)) == pending_entries(*old(m)),
{
    m.swap_remove(key)
}


// ---------------------------------------------------------------------------
// Resolved environments: IndexMap<String, ResolvedValue>
// ---------------------------------------------------------------------------

/// The entries of an environment map, in order
pub uninterp spec fn resolved_entries(m: IndexMap<String, ResolvedValue>) -> Seq<(String, ResolvedValue)>;

pub open spec fn resolved_view(m: IndexMap<String, ResolvedValue>) -> Seq<(Seq<char>, (Seq<char>, bool))> {
    resolved_entries(m).map_values(|e: (String, ResolvedValue)| (e.0@, e.1@))
}

/// `IndexMap::new`: an empty map
#[verifier::external_body]
pub(crate) fn resolved_new() -> (m: IndexMap<String, ResolvedValue>)
    ensures
        resolved_entries(m) == Seq::<(String, ResolvedValue)>::empty(),
{
    IndexMap::new()
}

/// `IndexMap::len`: the number of entries
#[verifier::external_body]
pub(crate) fn resolved_len(m: &IndexMap<String, ResolvedValue>) -> (n: usize)
    ensures
        n == resolved_entries(*m).len(),
{
    m.len()
}

/// `IndexMap::get_index`: the entry at a position
#[verifier::external_body]
pub(crate) fn resolved_get_index(m: &IndexMap<String, ResolvedValue>, i: usize) -> (r: Option<(&String, &ResolvedValue)>)
    ensures
        i < resolved_entries(*m).len() ==> r == Some(
            (&resolved_entries(*m)[i as int].0, &resolved_entries(*m)[i as int].1),
        ),
        i >= resolved_entries(*m).len() ==> r is None,
{
    m.get_index(i)
}

/// `IndexMap::insert`: a present key keeps its position and gets the new
/// value; a new key is appended
#[verifier::external_body]
pub(crate) fn resolved_insert(m: &mut IndexMap<String, ResolvedValue>, key: String, value: ResolvedValue)
    ensures
        forall|i: int|
            0 <= i < resolved_entries(*old(m)).len() && #[trigger] resolved_entries(*old(m))[i].0@ == key@
                ==> resolved_entries(*final(m)) == resolved_entries(*old(m)).update(i, (resolved_entries(*old(m))[i].0, value)),
        (forall|i: int| 0 <= i < resolved_entries(*old(m)).len() ==> #[trigger] resolved_entries(*old(m))[i].0@ != key@)
            ==> resolved_entries(*final(m)) == resolved_entries(*old(m)).push((key, value)),
{
    m.insert(key, value);
}

} // verus!
