//! Profile inheritance: each profile has its parents (its `extends` list)
//! merged into it, recursively.

use crate::config::graph::app_entries;
use crate::config::graph::shape;
use crate::config::graph::profile_views;
use crate::config::graph::flat_refs;
use crate::config::graph::flatten;
use crate::config::graph::config_keys_unique;
use crate::config::graph::refs_unique;
use crate::config::graph::node_of;
use crate::config::graph::parents_of;
use crate::config::graph::fold_parents;
use crate::config::graph::combine_parents;
use crate::config::graph::overlay_view;
use crate::config::graph::empty_profile;
use crate::config::graph::lemma_combine_frame;
use crate::config::graph::is_resolution;
use crate::config::graph::all_known;
use crate::config::graph::has_unqualified;
use crate::config::graph::ranked;
use crate::config::graph::acyclic;
use crate::config::graph::is_cycle;
use crate::config::graph::lemma_flatten_step;
use crate::config::graph::lemma_flatten_prefix;
use crate::config::graph::lemma_flatten_refs_unique;
use crate::config::graph::lemma_node_of;
use crate::config::graph::lemma_node_of_some;
use crate::config::graph::lemma_cycle_not_acyclic;
use crate::config::graph::lemma_fold_frame;
use crate::config::copy_references;
use crate::config::copy_side_effects;
use crate::config::copy_variables;
use crate::config::name::RefView;
use crate::config::name::reference_text;
use crate::config::Config;
use crate::config::Profile;
use crate::config::name::Name;
use crate::config::name::ProfileReference;
use crate::ordered::pending_entries;
use crate::ordered::pending_insert;
use crate::ordered::pending_new;
use crate::ordered::pending_pop;
use crate::ordered::pending_swap_remove;
use crate::ordered::pending_view;
use crate::ordered::reference_entries;
use crate::ordered::references_contains;
use crate::ordered::references_get_index;
use crate::ordered::references_insert;
use crate::ordered::references_len;
use crate::ordered::references_new;
use crate::ordered::references_view;
use indexmap::IndexMap;
use indexmap::IndexSet;
use crate::ordered::application_entries;
use crate::ordered::applications_get_index;
use crate::ordered::applications_len;
use crate::ordered::applications_new;
use crate::ordered::applications_insert;
use crate::ordered::applications_view;
use crate::ordered::profiles_new;
use crate::ordered::profiles_insert;
use crate::ordered::profiles_view;
use crate::config::Application;
use crate::config::ApplicationView;
use crate::ordered::profile_entries;
use crate::ordered::profiles_get_index;
use crate::ordered::profiles_len;
use crate::config::ProfileView;
use crate::config::SideEffectView;
use crate::config::SourceView;
use crate::ordered::variable_entries;
use crate::ordered::variables_get_index;
use crate::ordered::variables_insert;
use crate::ordered::variables_len;
use crate::ordered::variables_new;
use crate::config::ValueSource;
use crate::ordered::variables_view;
use vstd::prelude::*;

verus! {

// ---------------------------------------------------------------------------
// Ordered-map model: insertion into a sequence of (key, value) entries
// ---------------------------------------------------------------------------

/// Position of key `k` in the entries, if present
pub open spec fn key_index<V>(m: Seq<(Seq<char>, V)>, k: Seq<char>) -> Option<int> {
    if exists|i: int| 0 <= i < m.len() && m[i].0 == k {
        Some(choose|i: int| 0 <= i < m.len() && m[i].0 == k)
    } else {
        None
    }
}

/// No key occurs twice
pub open spec fn keys_unique<V>(m: Seq<(Seq<char>, V)>) -> bool {
    forall|i: int, j: int| 0 <= i < m.len() && 0 <= j < m.len() && i != j ==> m[i].0 != m[j].0
}

/// Insertion into an ordered map: a present key keeps its position and gets
/// the new value; a new key goes last
pub open spec fn insert_entry<V>(m: Seq<(Seq<char>, V)>, k: Seq<char>, v: V) -> Seq<(Seq<char>, V)> {
    match key_index(m, k) {
        Some(i) => m.update(i, (k, v)),
        None => m.push((k, v)),
    }
}

/// Insert each of `incoming`, in order, into `base`
pub open spec fn extend_entries<V>(base: Seq<(Seq<char>, V)>, incoming: Seq<(Seq<char>, V)>) -> Seq<(Seq<char>, V)>
    decreases incoming.len(),
{
    if incoming.len() == 0 {
        base
    } else {
        insert_entry(extend_entries(base, incoming.drop_last()), incoming.last().0, incoming.last().1)
    }
}

/// The value of key `k`, if present
pub open spec fn lookup<V>(m: Seq<(Seq<char>, V)>, k: Seq<char>) -> Option<V> {
    match key_index(m, k) {
        Some(i) => Some(m[i].1),
        None => None,
    }
}

pub proof fn lemma_insert_entry<V>(m: Seq<(Seq<char>, V)>, k: Seq<char>, v: V)
    requires
        keys_unique(m),
    ensures
        keys_unique(insert_entry(m, k, v)),
        lookup(insert_entry(m, k, v), k) == Some(v),
        forall|k2: Seq<char>| k2 != k ==> #[trigger] lookup(insert_entry(m, k, v), k2) == lookup(m, k2),
{
    let r = insert_entry(m, k, v);
    match key_index(m, k) {
        Some(i) => {
            assert(r[i].0 == k);
            assert forall|k2: Seq<char>| k2 != k implies #[trigger] lookup(r, k2) == lookup(m, k2) by {
                if exists|j: int| 0 <= j < m.len() && m[j].0 == k2 {
                    let j = choose|j: int| 0 <= j < m.len() && m[j].0 == k2;
                    assert(r[j].0 == k2);
                    let jr = choose|j: int| 0 <= j < r.len() && r[j].0 == k2;
                    assert(jr == j);
                } else {
                    assert forall|j: int| 0 <= j < r.len() implies r[j].0 != k2 by {
                        if j != i {
                            assert(r[j] == m[j]);
                        }
                    }
                }
            }
            let ir = choose|j: int| 0 <= j < r.len() && r[j].0 == k;
            assert(ir == i);
        },
        None => {
            assert(r[m.len() as int].0 == k);
            let ir = choose|j: int| 0 <= j < r.len() && r[j].0 == k;
            assert(ir == m.len());
            assert forall|k2: Seq<char>| k2 != k implies #[trigger] lookup(r, k2) == lookup(m, k2) by {
                if exists|j: int| 0 <= j < m.len() && m[j].0 == k2 {
                    let j = choose|j: int| 0 <= j < m.len() && m[j].0 == k2;
                    assert(r[j].0 == k2);
                    let jr = choose|j: int| 0 <= j < r.len() && r[j].0 == k2;
                    assert(jr == j);
                } else {
                    assert forall|j: int| 0 <= j < r.len() implies r[j].0 != k2 by {
                        if j < m.len() {
                            assert(r[j] == m[j]);
                        }
                    }
                }
            }
        },
    }
}

// ---------------------------------------------------------------------------
// Merging one profile into another
// ---------------------------------------------------------------------------

/// The child profile with a parent merged in: the parent's variables are
/// kept where the child does not define them (child values win, parent order
/// first, then the child's new variables in their order); the parent's side
/// effects come before the child's. The child's `extends` list is kept.
pub open spec fn inherit_view(child: ProfileView, parent: ProfileView) -> ProfileView {
    ProfileView {
        extends: child.extends,
        variables: extend_entries(parent.variables, child.variables),
        pre_export: parent.pre_export + child.pre_export,
        post_export: parent.post_export + child.post_export,
    }
}

/// `base` with each of `incoming`'s entries inserted, in order
fn extend_variables(base: &IndexMap<String, ValueSource>, incoming: &IndexMap<String, ValueSource>) -> (r: IndexMap<String, ValueSource>)
    requires
        keys_unique(variables_view(*base)),
    ensures
        variables_view(r) == extend_entries(variables_view(*base), variables_view(*incoming)),
        keys_unique(variables_view(r)),
{
    let mut variables = copy_variables(base);
    let n = variables_len(incoming);
    let ghost start = variables_view(*base);
    let ghost inc = variables_view(*incoming);
    let mut i: usize = 0;
    while i < n
        invariant
            n == inc.len(),
            inc == variables_view(*incoming),
            i <= n,
            variables_view(variables) == extend_entries(start, inc.take(i as int)),
            keys_unique(variables_view(variables)),
        decreases n - i,
    {
        let (k, v) = variables_get_index(incoming, i).unwrap();
        let ghost before = variables_view(variables);
        proof {
            lemma_insert_entry(before, k@, v@);
            if key_index(before, k@) is None {
                assert forall|j: int| 0 <= j < variable_entries(variables).len() implies #[trigger] variable_entries(variables)[j].0@ != k@ by {
                    assert(before[j].0 == variable_entries(variables)[j].0@);
                }
            }
        }
        variables_insert(&mut variables, k.clone(), v.copy());
        proof {
            assert(inc.take(i + 1).drop_last() == inc.take(i as int));
            assert(inc.take(i + 1).last() == (k@, v@));
            match key_index(before, k@) {
                Some(j) => {
                    assert(variable_entries(variables) == variable_entries(variables).update(j, variable_entries(variables)[j]));
                    assert(variables_view(variables) =~= before.update(j, (k@, v@)));
                },
                None => {
                    assert(variables_view(variables) =~= before.push((k@, v@)));
                },
            }
        }
        i = i + 1;
    }
    assert(inc.take(n as int) == inc);
    variables
}

/// Merge `parent` into `child`
pub fn inherit_from(child: &Profile, parent: &Profile) -> (r: Profile)
    requires
        keys_unique(parent@.variables),
    ensures
        r@ == inherit_view(child@, parent@),
        keys_unique(r@.variables),
{
    let variables = extend_variables(&parent.variables, &child.variables);
    let mut pre_export = copy_side_effects(&parent.pre_export);
    let mut child_pre = copy_side_effects(&child.pre_export);
    pre_export.append(&mut child_pre);
    let mut post_export = copy_side_effects(&parent.post_export);
    let mut child_post = copy_side_effects(&child.post_export);
    post_export.append(&mut child_post);
    let r = Profile { extends: copy_references(&child.extends), variables, pre_export, post_export };
    assert(r@.pre_export =~= parent@.pre_export + child@.pre_export);
    assert(r@.post_export =~= parent@.post_export + child@.post_export);
    r
}

/// `high` laid over `low`: `high`'s variables win and come first, and its
/// side effects come first
fn overlay(low: &Profile, high: &Profile) -> (r: Profile)
    requires
        keys_unique(high@.variables),
    ensures
        r@ == overlay_view(low@, high@),
        keys_unique(r@.variables),
{
    let with_low = extend_variables(&high.variables, &low.variables);
    let variables = extend_variables(&with_low, &high.variables);
    let mut pre_export = copy_side_effects(&high.pre_export);
    let mut low_pre = copy_side_effects(&low.pre_export);
    pre_export.append(&mut low_pre);
    let mut post_export = copy_side_effects(&high.post_export);
    let mut low_post = copy_side_effects(&low.post_export);
    post_export.append(&mut low_post);
    let r = Profile { extends: copy_references(&low.extends), variables, pre_export, post_export };
    assert(r@.pre_export =~= high@.pre_export + low@.pre_export);
    assert(r@.post_export =~= high@.post_export + low@.post_export);
    r
}

/// Every profile of the config under its absolute reference, in order;
/// application names are unique, and so are profile names within each
/// application
fn flatten_profiles(config: &Config) -> (r: (Vec<ProfileReference>, Vec<Profile>))
    ensures
        config_keys_unique(config@),
        r.0@.len() == flatten(config@).len(),
        r.1@.len() == flatten(config@).len(),
        forall|m: int| 0 <= m < flatten(config@).len() ==> #[trigger] r.0@[m]@ == flatten(config@)[m].0,
        forall|m: int| 0 <= m < flatten(config@).len() ==> #[trigger] r.1@[m]@ == flatten(config@)[m].1,
        forall|m: int| 0 <= m < flatten(config@).len() ==> keys_unique((#[trigger] r.1@[m])@.variables),
{
    let ghost c = config@;
    let mut refs: Vec<ProfileReference> = Vec::new();
    let mut profiles: Vec<Profile> = Vec::new();
    let napps = applications_len(&config.applications);
    let mut a: usize = 0;
    assert(flatten(c.take(0)) =~= Seq::<(RefView, ProfileView)>::empty());
    while a < napps
        invariant
            c == config@,
            napps == c.len(),
            a <= napps,
            refs@.len() == flatten(c.take(a as int)).len(),
            profiles@.len() == flatten(c.take(a as int)).len(),
            forall|m: int| 0 <= m < refs@.len() ==> #[trigger] refs@[m]@ == flatten(c.take(a as int))[m].0,
            forall|m: int| 0 <= m < profiles@.len() ==> #[trigger] profiles@[m]@ == flatten(c.take(a as int))[m].1,
            forall|m: int| 0 <= m < profiles@.len() ==> keys_unique((#[trigger] profiles@[m])@.variables),
            forall|x: int, j: int| 0 <= x < a && 0 <= j < c.len() && j != x ==> #[trigger] c[j].0 != #[trigger] c[x].0,
            forall|x: int| 0 <= x < a ==> keys_unique(#[trigger] c[x].1),
        decreases napps - a,
    {
        let (aname, app) = applications_get_index(&config.applications, a).unwrap();
        assert(c[a as int] == (aname@, app@));
        assert forall|j: int| 0 <= j < c.len() && j != a implies #[trigger] c[j].0 != c[a as int].0 by {
            assert(c[j].0 == application_entries(config.applications)[j].0@);
        }
        proof {
            lemma_flatten_step(c, a as int);
        }
        let ghost base = flatten(c.take(a as int));
        let ghost entries = app_entries(aname@, app@);
        let np = profiles_len(&app.profiles);
        let mut p: usize = 0;
        while p < np
            invariant
                c == config@,
                napps == c.len(),
                a < napps,
                c[a as int] == (aname@, app@),
                np == app@.len(),
                p <= np,
                base == flatten(c.take(a as int)),
                entries == app_entries(aname@, app@),
                refs@.len() == base.len() + p,
                profiles@.len() == base.len() + p,
                forall|m: int| 0 <= m < refs@.len() ==> #[trigger] refs@[m]@ == (base + entries)[m].0,
                forall|m: int| 0 <= m < profiles@.len() ==> #[trigger] profiles@[m]@ == (base + entries)[m].1,
                forall|m: int| 0 <= m < profiles@.len() ==> keys_unique((#[trigger] profiles@[m])@.variables),
                forall|x: int, j: int| 0 <= x < p && 0 <= j < app@.len() && j != x ==> #[trigger] app@[j].0 != #[trigger] app@[x].0,
            decreases np - p,
        {
            let (pname, profile) = profiles_get_index(&app.profiles, p).unwrap();
            assert(app@[p as int] == (pname@, profile@));
            assert forall|j: int| 0 <= j < app@.len() && j != p implies #[trigger] app@[j].0 != app@[p as int].0 by {
                assert(app@[j].0 == profile_entries(app.profiles)[j].0@);
            }
            let reference = ProfileReference::new(Some(aname.clone()), pname.clone());
            let copy = profile.copy();
            assert((base + entries)[base.len() + p] == entries[p as int]);
            refs.push(reference);
            profiles.push(copy);
            p = p + 1;
        }
        assert(keys_unique(c[a as int].1));
        assert(flatten(c.take(a + 1)) == base + entries);
        a = a + 1;
    }
    assert(c.take(napps as int) =~= c);
    (refs, profiles)
}

/// A profile with nothing in it
fn new_empty_profile() -> (r: Profile)
    ensures
        r@ == empty_profile(),
        keys_unique(r@.variables),
{
    let r = Profile { extends: references_new(), variables: variables_new(), pre_export: Vec::new(), post_export: Vec::new() };
    assert(r@.extends =~= Seq::<RefView>::empty());
    assert(r@.variables =~= Seq::<(Seq<char>, SourceView)>::empty());
    assert(r@.pre_export =~= Seq::<SideEffectView>::empty());
    assert(r@.post_export =~= Seq::<SideEffectView>::empty());
    r
}

// ---------------------------------------------------------------------------
// Resolution of the whole inheritance graph
// ---------------------------------------------------------------------------

/// Why inheritance could not be resolved
#[derive(Debug)]
pub enum InheritanceError {
    /// A parent reference without an application name
    Unqualified { parent: ProfileReference, profile: Name },
    /// The chain of profiles being resolved when a profile turned out to
    /// extend one of them
    Cycle { path: Vec<ProfileReference> },
    /// A parent that names no profile
    Unknown { reference: ProfileReference },
}

pub open spec fn references_seq_view(v: Seq<ProfileReference>) -> Seq<RefView> {
    v.map_values(|r: ProfileReference| r@)
}

/// Each profile of `path` extends the next one
pub open spec fn is_chain(flat: Seq<(RefView, ProfileView)>, path: Seq<RefView>) -> bool {
    forall|j: int| 0 <= j < path.len() - 1 ==> parents_of(flat, node_of(flat, #[trigger] path[j])->0).contains(path[j + 1])
}

/// The error is a genuine defect of the inheritance graph
pub open spec fn error_valid(flat: Seq<(RefView, ProfileView)>, e: InheritanceError) -> bool {
    match e {
        InheritanceError::Unqualified { parent, profile } => exists|i: int|
            0 <= i < flat.len() && #[trigger] flat[i].0.profile == profile@ && parents_of(flat, i).contains(parent@)
                && parent@.application is None,
        InheritanceError::Cycle { path } => is_cycle(flat, references_seq_view(path@)),
        InheritanceError::Unknown { reference } => node_of(flat, reference@) is None && exists|i: int|
            0 <= i < flat.len() && #[trigger] parents_of(flat, i).contains(reference@),
    }
}

/// No reference occurs twice
pub open spec fn no_dups(s: Seq<RefView>) -> bool {
    forall|i: int, j: int| 0 <= i < j < s.len() ==> s[i] != s[j]
}

/// `c` is a chain of existing profiles starting at `x`, each extending the
/// next
pub open spec fn chain_from(flat: Seq<(RefView, ProfileView)>, c: Seq<RefView>, x: RefView) -> bool {
    &&& c.len() > 0
    &&& c[0] == x
    &&& is_chain(flat, c)
    &&& forall|j: int| 0 <= j < c.len() ==> node_of(flat, #[trigger] c[j]) is Some
}

/// Resolving `x` while the profiles of `path` (which ends with `x`) are being
/// resolved meets no defect: along every chain of parents from `x`, each
/// parent exists and is neither on the path nor earlier on the chain
pub open spec fn sound_from(flat: Seq<(RefView, ProfileView)>, path: Seq<RefView>, x: RefView) -> bool {
    forall|c: Seq<RefView>| #[trigger] chain_from(flat, c, x) ==> forall|k: int|
        0 <= k < parents_of(flat, node_of(flat, c.last())->0).len() ==> {
            let p = #[trigger] parents_of(flat, node_of(flat, c.last())->0)[k];
            &&& node_of(flat, p) is Some
            &&& !(path + c.drop_first()).contains(p)
        }
}

/// The error found while resolving `x`, with `path` (ending with `x`) being
/// resolved: a cycle is reported as `path` followed by the chain walked from
/// `x` up to the profile whose parent is already on it, with no profile
/// twice; an unknown parent is one reached from `x`
pub open spec fn local_error(flat: Seq<(RefView, ProfileView)>, path: Seq<RefView>, x: RefView, e: InheritanceError) -> bool {
    match e {
        InheritanceError::Cycle { path: v } => {
            let v = references_seq_view(v@);
            &&& is_cycle(flat, v)
            &&& path.len() <= v.len()
            &&& v.take(path.len() as int) == path
            &&& no_dups(v)
        },
        InheritanceError::Unknown { reference } => node_of(flat, reference@) is None && exists|c: Seq<RefView>|
            #[trigger] chain_from(flat, c, x) && parents_of(flat, node_of(flat, c.last())->0).contains(reference@),
        InheritanceError::Unqualified { .. } => false,
    }
}

/// An inheritance error, by value
pub enum ErrorView {
    Unqualified { parent: RefView, profile: Seq<char> },
    Cycle(Seq<RefView>),
    Unknown(RefView),
}

/// What an inheritance run gives, by value: no error, or the error
pub open spec fn outcome(r: Result<(), InheritanceError>) -> Option<ErrorView> {
    match r {
        Ok(()) => None,
        Err(InheritanceError::Unqualified { parent, profile }) => Some(ErrorView::Unqualified { parent: parent@, profile: profile@ }),
        Err(InheritanceError::Cycle { path }) => Some(ErrorView::Cycle(references_seq_view(path@))),
        Err(InheritanceError::Unknown { reference }) => Some(ErrorView::Unknown(reference@)),
    }
}

/// The position of `x`'s entry among the waiting profiles, if it waits
pub open spec fn pending_pos(pv: Seq<(RefView, Seq<RefView>)>, x: RefView) -> Option<int> {
    if exists|i: int| 0 <= i < pv.len() && pv[i].0 == x {
        Some(choose|i: int| 0 <= i < pv.len() && pv[i].0 == x)
    } else {
        None
    }
}

/// The waiting profiles with entry `i` taken out, the last entry moved into
/// its place
pub open spec fn swap_removed(pv: Seq<(RefView, Seq<RefView>)>, i: int) -> Seq<(RefView, Seq<RefView>)> {
    pv.update(i, pv.last()).drop_last()
}

/// Resolving `x`, whose parents are `parents`, while the profiles of `path`
/// are being resolved and those of `pv` wait: the first defect met, if any,
/// and the profiles still waiting afterwards
pub open spec fn walk_profile(
    flat: Seq<(RefView, ProfileView)>,
    pv: Seq<(RefView, Seq<RefView>)>,
    path: Seq<RefView>,
    x: RefView,
    parents: Seq<RefView>,
) -> (Option<ErrorView>, Seq<(RefView, Seq<RefView>)>)
    decreases pv.len(), parents.len() + 1,
{
    walk_parents(flat, pv, path.push(x), parents, parents.len() as int)
}

/// Handling `parents[k - 1]`, then the ones before it, down to the first,
/// while the profiles of `path` are being resolved: a parent on the path is
/// a cycle, reported as the path; a waiting parent is resolved first; a
/// parent that names no profile is unknown
pub open spec fn walk_parents(
    flat: Seq<(RefView, ProfileView)>,
    pv: Seq<(RefView, Seq<RefView>)>,
    path: Seq<RefView>,
    parents: Seq<RefView>,
    k: int,
) -> (Option<ErrorView>, Seq<(RefView, Seq<RefView>)>)
    decreases pv.len(), k,
{
    if k <= 0 || k > parents.len() {
        (None, pv)
    } else {
        let p = parents[k - 1];
        if path.contains(p) {
            (Some(ErrorView::Cycle(path)), pv)
        } else {
            let step = match pending_pos(pv, p) {
                Some(i) => walk_profile(flat, swap_removed(pv, i), path, p, pv[i].1),
                None => (None, pv),
            };
            if step.0 is Some {
                step
            } else if node_of(flat, p) is None {
                (Some(ErrorView::Unknown(p)), step.1)
            } else if step.1.len() <= pv.len() {
                walk_parents(flat, step.1, path, parents, k - 1)
            } else {
                (None, step.1)
            }
        }
    }
}

/// Resolving every waiting profile, the last one first: the first defect
/// met, if any
pub open spec fn walk_all(flat: Seq<(RefView, ProfileView)>, pv: Seq<(RefView, Seq<RefView>)>) -> Option<ErrorView>
    decreases pv.len(),
{
    if pv.len() == 0 {
        None
    } else {
        let step = walk_profile(flat, pv.drop_last(), Seq::empty(), pv.last().0, pv.last().1);
        if step.0 is Some {
            step.0
        } else if step.1.len() < pv.len() {
            walk_all(flat, step.1)
        } else {
            None
        }
    }
}

/// The profiles that wait for inheritance at the start: each profile that has
/// parents, with its parents, in config order
pub open spec fn queue(flat: Seq<(RefView, ProfileView)>) -> Seq<(RefView, Seq<RefView>)>
    decreases flat.len(),
{
    if flat.len() == 0 {
        Seq::empty()
    } else if flat.last().1.extends.len() > 0 {
        queue(flat.drop_last()).push((flat.last().0, flat.last().1.extends))
    } else {
        queue(flat.drop_last())
    }
}

/// Some entry of `pv` has key `x`
#[verifier::opaque]
pub open spec fn pending_key(pv: Seq<(RefView, Seq<RefView>)>, x: RefView) -> bool {
    exists|k: int| 0 <= k < pv.len() && (#[trigger] pv[k]).0 == x
}

/// `x` is one of the profiles being resolved
#[verifier::opaque]
spec fn on_path(path: Seq<RefView>, x: RefView) -> bool {
    path.contains(x)
}

struct Resolver {
    refs: Vec<ProfileReference>,
    profiles: Vec<Profile>,
    pending: IndexMap<ProfileReference, IndexSet<ProfileReference>>,
    flat: Ghost<Seq<(RefView, ProfileView)>>,
    rank: Ghost<Seq<nat>>,
    next_rank: Ghost<nat>,
}

impl Resolver {
    spec fn cur(&self) -> Seq<ProfileView> {
        self.profiles@.map_values(|p: Profile| p@)
    }

    spec fn pending_has(&self, r: RefView) -> bool {
        pending_key(pending_view(self.pending), r)
    }

    /// Node `i` is resolved: neither waiting nor being resolved
    spec fn is_done(&self, path: Seq<RefView>, i: int) -> bool {
        !self.pending_has(self.flat@[i].0) && !on_path(path, self.flat@[i].0)
    }

    spec fn done_ok(&self, path: Seq<RefView>, i: int) -> bool {
        let flat = self.flat@;
        &&& self.cur()[i] == fold_parents(flat, self.cur(), parents_of(flat, i), flat[i].1)
        &&& self.rank@[i] < self.next_rank@
        &&& forall|k: int| 0 <= k < parents_of(flat, i).len() ==> {
            let p = node_of(flat, #[trigger] parents_of(flat, i)[k]);
            &&& p is Some
            &&& self.is_done(path, p->0)
            &&& self.rank@[p->0] < self.rank@[i]
        }
    }

    #[verifier::opaque]
    spec fn wf(&self, path: Seq<RefView>) -> bool {
        let flat = self.flat@;
        let pv = pending_view(self.pending);
        &&& refs_unique(flat)
        &&& self.refs@.len() == flat.len()
        &&& self.profiles@.len() == flat.len()
        &&& self.rank@.len() == flat.len()
        &&& forall|i: int| 0 <= i < flat.len() ==> (#[trigger] self.refs@[i])@ == flat[i].0
        &&& forall|i: int| 0 <= i < flat.len() ==> keys_unique((#[trigger] self.profiles@[i])@.variables)
        &&& forall|k: int| 0 <= k < pv.len() ==> {
            let n = node_of(flat, (#[trigger] pv[k]).0);
            &&& n is Some
            &&& pv[k].1 == parents_of(flat, n->0)
        }
        &&& forall|k1: int, k2: int| 0 <= k1 < pv.len() && 0 <= k2 < pv.len() && k1 != k2 ==> (#[trigger] pv[k1]).0 != (#[trigger] pv[k2]).0
        &&& forall|j: int| 0 <= j < path.len() ==> node_of(flat, #[trigger] path[j]) is Some && !self.pending_has(path[j])
        &&& forall|i: int| 0 <= i < flat.len() && !self.is_done(path, i) ==> #[trigger] self.cur()[i] == flat[i].1
        &&& forall|i: int| 0 <= i < flat.len() && self.is_done(path, i) ==> #[trigger] self.done_ok(path, i)
    }

    /// Everything resolved before stays resolved, with the same value
    spec fn keeps(self, other: Resolver, path: Seq<RefView>, later_path: Seq<RefView>) -> bool {
        &&& other.flat@ == self.flat@
        &&& forall|r: RefView| other.pending_has(r) ==> self.pending_has(r)
        &&& forall|i: int|
            #![trigger self.is_done(path, i)]
            #![trigger other.cur()[i]]
            0 <= i < self.flat@.len() && self.is_done(path, i) ==> other.is_done(later_path, i)
                && other.cur()[i] == self.cur()[i] && other.rank@[i] == self.rank@[i]
        &&& pending_entries(other.pending).len() <= pending_entries(self.pending).len()
    }

    /// The position of a reference among the profiles
    fn find(&self, reference: &ProfileReference) -> (r: Option<usize>)
        requires
            self.refs@.len() == self.flat@.len(),
            forall|i: int| 0 <= i < self.flat@.len() ==> (#[trigger] self.refs@[i])@ == self.flat@[i].0,
            refs_unique(self.flat@),
        ensures
            match r {
                Some(i) => node_of(self.flat@, reference@) == Some(i as int),
                None => node_of(self.flat@, reference@) is None,
            },
    {
        let mut i: usize = 0;
        while i < self.refs.len()
            invariant
                self.refs@.len() == self.flat@.len(),
                forall|i: int| 0 <= i < self.flat@.len() ==> (#[trigger] self.refs@[i])@ == self.flat@[i].0,
                refs_unique(self.flat@),
                i <= self.refs@.len(),
                forall|k: int| 0 <= k < i ==> self.flat@[k].0 != reference@,
            decreases self.refs@.len() - i,
        {
            if self.refs[i] == *reference {
                proof {
                    lemma_node_of(self.flat@, i as int);
                }
                return Some(i);
            }
            i = i + 1;
        }
        None
    }
}

impl Resolver {
    /// Flatten the config and list the profiles that have parents; every
    /// parent must already be qualified
    fn new(config: &Config) -> (r: Result<Resolver, InheritanceError>)
        ensures
            config_keys_unique(config@),
            forall|k: int| 0 <= k < flatten(config@).len() ==> keys_unique((#[trigger] flatten(config@)[k]).1.variables),
            r is Ok ==> r->Ok_0.flat@ == flatten(config@) && r->Ok_0.wf(Seq::empty()) && !has_unqualified(r->Ok_0.flat@),
            r is Ok ==> pending_view(r->Ok_0.pending) == queue(flatten(config@)),
            r is Ok ==> forall|m: int| 0 <= m < flatten(config@).len() ==> (#[trigger] r->Ok_0.profiles@[m])@ == flatten(config@)[m].1,
            r is Err ==> r->Err_0 is Unqualified,
            r is Err ==> error_valid(flatten(config@), r->Err_0),
            has_unqualified(flatten(config@)) ==> r is Err,
    {
        let flattened = flatten_profiles(config);
        let ghost flat = flatten(config@);
        let refs = flattened.0;
        let profiles = flattened.1;
        proof {
            lemma_flatten_refs_unique(config@);
            assert forall|m: int| 0 <= m < flat.len() implies keys_unique((#[trigger] flat[m]).1.variables) by {
                assert(profiles@[m]@ == flat[m].1);
            }
        }
        let mut pending = pending_new();
        let n = refs.len();
        let mut i: usize = 0;
        assert(pending_view(pending) =~= queue(flat.take(0)));
        while i < n
            invariant
                flat == flatten(config@),
                config_keys_unique(config@),
                forall|m: int| 0 <= m < flat.len() ==> keys_unique((#[trigger] flat[m]).1.variables),
                n == flat.len(),
                refs@.len() == flat.len(),
                profiles@.len() == flat.len(),
                refs_unique(flat),
                forall|m: int| 0 <= m < flat.len() ==> #[trigger] refs@[m]@ == flat[m].0,
                forall|m: int| 0 <= m < flat.len() ==> #[trigger] profiles@[m]@ == flat[m].1,
                forall|m: int| 0 <= m < flat.len() ==> keys_unique((#[trigger] profiles@[m])@.variables),
                i <= n,
                pending_view(pending) == queue(flat.take(i as int)),
                forall|k: int| 0 <= k < pending_view(pending).len() ==> {
                    let m = node_of(flat, (#[trigger] pending_view(pending)[k]).0);
                    &&& m is Some
                    &&& m->0 < i
                    &&& pending_view(pending)[k].1 == parents_of(flat, m->0)
                    &&& parents_of(flat, m->0).len() > 0
                },
                forall|k1: int, k2: int| 0 <= k1 < pending_view(pending).len() && 0 <= k2 < pending_view(pending).len() && k1 != k2
                    ==> (#[trigger] pending_view(pending)[k1]).0 != (#[trigger] pending_view(pending)[k2]).0,
                forall|m: int| 0 <= m < i && parents_of(flat, m).len() > 0 ==> exists|k: int|
                    0 <= k < pending_view(pending).len() && (#[trigger] pending_view(pending)[k]).0 == #[trigger] flat[m].0,
                forall|m: int, q: int| 0 <= m < i && 0 <= q < parents_of(flat, m).len() ==> (#[trigger] parents_of(flat, m)[q]).application is Some,
            decreases n - i,
        {
            let profile = &profiles[i];
            assert(profile@ == flat[i as int].1);
            proof {
                assert(flat.take(i + 1).drop_last() =~= flat.take(i as int));
                assert(flat.take(i + 1).last() == flat[i as int]);
            }
            let np = references_len(&profile.extends);
            if np > 0 {
                let mut k: usize = 0;
                while k < np
                    invariant
                        flat == flatten(config@),
                        config_keys_unique(config@),
                        forall|m: int| 0 <= m < flat.len() ==> keys_unique((#[trigger] flat[m]).1.variables),
                        i < n,
                        n == flat.len(),
                        refs@.len() == flat.len(),
                        forall|m: int| 0 <= m < flat.len() ==> #[trigger] refs@[m]@ == flat[m].0,
                        np == parents_of(flat, i as int).len(),
                        profile@ == flat[i as int].1,
                        k <= np,
                        forall|q: int| 0 <= q < k ==> (#[trigger] parents_of(flat, i as int)[q]).application is Some,
                    decreases np - k,
                {
                    let parent = references_get_index(&profile.extends, k).unwrap();
                    assert(parent@ == parents_of(flat, i as int)[k as int]);
                    if !parent.is_qualified() {
                        let e = InheritanceError::Unqualified { parent: parent.clone(), profile: refs[i].profile().clone() };
                        assert(parents_of(flat, i as int).contains(parent@));
                        assert(flat[i as int].0.profile == refs@[i as int]@.profile);
                        assert(error_valid(flat, e));
                        return Err(e);
                    }
                    k = k + 1;
                }
                let ghost before = pending_view(pending);
                assert forall|k: int| 0 <= k < pending_entries(pending).len() implies #[trigger] pending_entries(pending)[k].0@ != refs@[i as int]@ by {
                    assert(before[k].0 == pending_entries(pending)[k].0@);
                    let m = node_of(flat, before[k].0)->0;
                    lemma_node_of(flat, m);
                    lemma_node_of(flat, i as int);
                }
                let key = refs[i].clone();
                let parents = copy_references(&profile.extends);
                pending_insert(&mut pending, key, parents);
                proof {
                    assert(pending_view(pending) =~= before.push((flat[i as int].0, parents_of(flat, i as int))));
                    lemma_node_of(flat, i as int);
                    assert forall|m: int| 0 <= m < i + 1 && parents_of(flat, m).len() > 0 implies exists|k: int|
                        0 <= k < pending_view(pending).len() && (#[trigger] pending_view(pending)[k]).0 == #[trigger] flat[m].0 by {
                        if m == i {
                            assert(pending_view(pending)[before.len() as int].0 == flat[m].0);
                        } else {
                            let k = choose|k: int| 0 <= k < before.len() && (#[trigger] before[k]).0 == flat[m].0;
                            assert(pending_view(pending)[k] == before[k]);
                        }
                    }
                }
            }
            i = i + 1;
        }
        assert(flat.take(n as int) =~= flat);
        let ghost rank = Seq::new(n as nat, |m: int| 0nat);
        let res = Resolver { refs, profiles, pending, flat: Ghost(flat), rank: Ghost(rank), next_rank: Ghost(1nat) };
        proof {
            reveal(Resolver::wf);
            reveal(pending_key);
            reveal(on_path);
            assert forall|m: int| 0 <= m < flat.len() && parents_of(flat, m).len() == 0 implies !res.pending_has(flat[m].0) by {
                if res.pending_has(flat[m].0) {
                    let k = choose|k: int| 0 <= k < pending_view(res.pending).len() && (#[trigger] pending_view(res.pending)[k]).0 == flat[m].0;
                    lemma_node_of(flat, m);
                    assert(pending_view(pending)[k].1 == parents_of(flat, m));
                    assert(pending_view(pending)[k].1.len() > 0);
                }
            }
            assert forall|m: int| 0 <= m < flat.len() && parents_of(flat, m).len() > 0 implies res.pending_has(flat[m].0) by {
                let k = choose|k: int| 0 <= k < pending_view(res.pending).len() && (#[trigger] pending_view(res.pending)[k]).0 == #[trigger] flat[m].0;
            }
            assert forall|m: int| 0 <= m < flat.len() implies #[trigger] res.cur()[m] == flat[m].1 by {
                assert(res.profiles@[m]@ == flat[m].1);
            }
            assert forall|m: int| 0 <= m < flat.len() && res.is_done(Seq::empty(), m) implies #[trigger] res.done_ok(Seq::empty(), m) by {
                assert(parents_of(flat, m).len() == 0);
                assert(res.cur()[m] == flat[m].1);
            }
            assert(!has_unqualified(flat));
        }
        Ok(res)
    }
}

/// The members of a reference set, in order, as a vector
fn references_to_vec(s: &IndexSet<ProfileReference>) -> (r: Vec<ProfileReference>)
    ensures
        references_seq_view(r@) == references_view(*s),
{
    let mut r: Vec<ProfileReference> = Vec::new();
    let n = references_len(s);
    let mut i: usize = 0;
    while i < n
        invariant
            n == reference_entries(*s).len(),
            i <= n,
            r@.len() == i,
            forall|j: int| 0 <= j < i ==> (#[trigger] r@[j])@ == reference_entries(*s)[j]@,
        decreases n - i,
    {
        let e = references_get_index(s, i).unwrap();
        r.push(e.clone());
        i = i + 1;
    }
    assert(references_seq_view(r@) =~= references_view(*s));
    r
}

/// Removing an entry by moving the last one into its place removes exactly
/// that key
proof fn lemma_swap_remove_view(pv: Seq<(RefView, Seq<RefView>)>, i: int)
    requires
        0 <= i < pv.len(),
        forall|k1: int, k2: int| 0 <= k1 < pv.len() && 0 <= k2 < pv.len() && k1 != k2 ==> (#[trigger] pv[k1]).0 != (#[trigger] pv[k2]).0,
    ensures
        ({
            let r = pv.update(i, pv.last()).drop_last();
            &&& r.len() == pv.len() - 1
            &&& forall|k1: int, k2: int| 0 <= k1 < r.len() && 0 <= k2 < r.len() && k1 != k2 ==> (#[trigger] r[k1]).0 != (#[trigger] r[k2]).0
            &&& forall|k: int| 0 <= k < r.len() ==> exists|k2: int| 0 <= k2 < pv.len() && k2 != i && #[trigger] r[k] == #[trigger] pv[k2]
            &&& forall|x: RefView| #[trigger] pending_key(r, x) <==> (pending_key(pv, x) && x != pv[i].0)
        }),
{
    reveal(pending_key);
    let r = pv.update(i, pv.last()).drop_last();
    let last = pv.len() - 1;
    assert forall|k: int| 0 <= k < r.len() implies exists|k2: int| 0 <= k2 < pv.len() && k2 != i && #[trigger] r[k] == #[trigger] pv[k2] by {
        if k == i {
            assert(r[k] == pv[last]);
        } else {
            assert(r[k] == pv[k]);
        }
    }
    assert forall|k1: int, k2: int| 0 <= k1 < r.len() && 0 <= k2 < r.len() && k1 != k2 implies (#[trigger] r[k1]).0 != (#[trigger] r[k2]).0 by {
        let a = if k1 == i { last } else { k1 };
        let b = if k2 == i { last } else { k2 };
        assert(r[k1] == pv[a]);
        assert(r[k2] == pv[b]);
    }
    assert forall|x: RefView| #[trigger] pending_key(r, x) <==> (pending_key(pv, x) && x != pv[i].0) by {
        if pending_key(r, x) {
            let k = choose|k: int| 0 <= k < r.len() && (#[trigger] r[k]).0 == x;
            let a = if k == i { last } else { k };
            assert(r[k] == pv[a]);
            assert(a != i);
            assert(pv[a].0 == x);
        }
        if pending_key(pv, x) && x != pv[i].0 {
            let k = choose|k: int| 0 <= k < pv.len() && (#[trigger] pv[k]).0 == x;
            assert(k != i);
            if k == last {
                assert(r[i] == pv[last]);
            } else {
                assert(r[k] == pv[k]);
            }
        }
    }
}

impl Resolver {
    /// Moving a waiting profile onto the resolution path
    proof fn lemma_move_to_path(before: Resolver, after: Resolver, path: Seq<RefView>, ip: int)
        requires
            before.wf(path),
            after.flat@ == before.flat@,
            after.refs@ == before.refs@,
            after.profiles@ == before.profiles@,
            after.rank@ == before.rank@,
            after.next_rank@ == before.next_rank@,
            0 <= ip < pending_view(before.pending).len(),
            pending_view(after.pending) == pending_view(before.pending).update(ip, pending_view(before.pending).last()).drop_last(),
        ensures
            ({
                let flat = before.flat@;
                let x = pending_view(before.pending)[ip].0;
                &&& !path.contains(x)
                &&& node_of(flat, x) is Some
                &&& pending_view(before.pending)[ip].1 == parents_of(flat, node_of(flat, x)->0)
                &&& after.wf(path.push(x))
                &&& forall|i: int| 0 <= i < flat.len() ==> #[trigger] after.is_done(path.push(x), i) == before.is_done(path, i)
                &&& before.keeps(after, path, path.push(x))
                &&& pending_entries(after.pending).len() < pending_entries(before.pending).len()
            }),
    {
        reveal(Resolver::wf);
        reveal(on_path);
        let flat = before.flat@;
        let pv = pending_view(before.pending);
        let x = pv[ip].0;
        let path_p = path.push(x);
        lemma_swap_remove_view(pv, ip);
        assert(before.pending_has(x)) by {
            reveal(pending_key);
        }
        assert(!path.contains(x));
        assert forall|i: int| 0 <= i < flat.len() implies #[trigger] after.is_done(path_p, i) == before.is_done(path, i) by {
            let y = flat[i].0;
            assert(path_p.contains(y) == (path.contains(y) || y == x)) by {
                if path_p.contains(y) {
                    let q = choose|q: int| 0 <= q < path_p.len() && path_p[q] == y;
                    if q < path.len() {
                        assert(path[q] == y);
                    }
                }
                if path.contains(y) {
                    let q = choose|q: int| 0 <= q < path.len() && path[q] == y;
                    assert(path_p[q] == y);
                }
                if y == x {
                    assert(path_p[path.len() as int] == y);
                }
            }
        }
        assert(after.cur() == before.cur());
        assert forall|i: int| 0 <= i < flat.len() && after.is_done(path_p, i) implies #[trigger] after.done_ok(path_p, i) by {
            assert(before.done_ok(path, i));
            assert forall|k: int| 0 <= k < parents_of(flat, i).len() implies {
                let p = node_of(flat, #[trigger] parents_of(flat, i)[k]);
                &&& p is Some
                &&& after.is_done(path_p, p->0)
                &&& after.rank@[p->0] < after.rank@[i]
            } by {
                let p = node_of(flat, parents_of(flat, i)[k]);
                assert(before.is_done(path, p->0));
            }
        }
        assert forall|q: int| 0 <= q < path_p.len() implies node_of(flat, #[trigger] path_p[q]) is Some && !after.pending_has(path_p[q]) by {
            if q < path.len() {
                assert(path_p[q] == path[q]);
            }
        }
        let apv = pending_view(after.pending);
        assert forall|k: int| 0 <= k < apv.len() implies {
            let n = node_of(flat, (#[trigger] apv[k]).0);
            &&& n is Some
            &&& apv[k].1 == parents_of(flat, n->0)
        } by {
            let k2 = choose|k2: int| 0 <= k2 < pv.len() && k2 != ip && #[trigger] apv[k] == #[trigger] pv[k2];
        }
        assert(pending_entries(after.pending).len() == apv.len());
        assert(pending_entries(before.pending).len() == pv.len());
        assert(after.wf(path_p));
        assert forall|r: RefView| after.pending_has(r) implies before.pending_has(r) by {}
        assert(before.keeps(after, path, path_p));
    }

    /// Chaining the preservation guarantees
    proof fn lemma_keeps_trans(a: Resolver, b: Resolver, c: Resolver, p1: Seq<RefView>, p2: Seq<RefView>, p3: Seq<RefView>)
        requires
            a.keeps(b, p1, p2),
            b.keeps(c, p2, p3),
        ensures
            a.keeps(c, p1, p3),
    {
        assert(b.flat@ == a.flat@);
        assert forall|i: int| 0 <= i < a.flat@.len() && #[trigger] a.is_done(p1, i) implies c.is_done(p3, i)
            && c.cur()[i] == a.cur()[i] && c.rank@[i] == a.rank@[i] by {
            assert(b.cur()[i] == a.cur()[i]);
            assert(b.is_done(p2, i));
            assert(c.cur()[i] == b.cur()[i]);
        }
    }

    /// Combined parents keep their values when only unfinished profiles
    /// change
    proof fn lemma_acc_frame(a: Resolver, b: Resolver, pa: Seq<RefView>, pb: Seq<RefView>, ps: Seq<RefView>)
        requires
            a.keeps(b, pa, pb),
            forall|k: int| 0 <= k < ps.len() ==> {
                let p = node_of(a.flat@, #[trigger] ps[k]);
                &&& p is Some
                &&& 0 <= p->0 < a.flat@.len()
                &&& a.is_done(pa, p->0)
            },
        ensures
            combine_parents(a.flat@, a.cur(), ps) == combine_parents(b.flat@, b.cur(), ps),
            forall|k: int| 0 <= k < ps.len() ==> b.is_done(pb, node_of(a.flat@, #[trigger] ps[k])->0),
    {
        assert forall|k: int| 0 <= k < ps.len() implies match node_of(a.flat@, #[trigger] ps[k]) {
            Some(i) => a.cur()[i] == b.cur()[i],
            None => true,
        } by {
            let p = node_of(a.flat@, ps[k])->0;
            assert(b.cur()[p] == a.cur()[p]);
        }
        lemma_combine_frame(a.flat@, a.cur(), b.cur(), ps);
        assert forall|k: int| 0 <= k < ps.len() implies b.is_done(pb, node_of(a.flat@, #[trigger] ps[k])->0) by {
            let p = node_of(a.flat@, ps[k])->0;
            assert(b.is_done(pb, p));
        }
    }
}


proof fn lemma_on_path_push(path: Seq<RefView>, x: RefView)
    ensures
        forall|y: RefView| #[trigger] on_path(path.push(x), y) <==> (on_path(path, y) || y == x),
{
    reveal(on_path);
    assert forall|y: RefView| #[trigger] on_path(path.push(x), y) <==> (on_path(path, y) || y == x) by {
        let pp = path.push(x);
        if pp.contains(y) {
            let q = choose|q: int| 0 <= q < pp.len() && pp[q] == y;
            if q < path.len() {
                assert(path[q] == y);
            }
        }
        if path.contains(y) {
            let q = choose|q: int| 0 <= q < path.len() && path[q] == y;
            assert(pp[q] == y);
        }
        if y == x {
            assert(pp[path.len() as int] == y);
        }
    }
}

impl Resolver {
    /// Storing the merged profile of the last member of the path finishes it:
    /// it leaves the path, resolved, ranked above all its parents
    proof fn lemma_finish(before: Resolver, after: Resolver, path: Seq<RefView>, x: RefView, xi: int, acc: Profile)
        requires
            before.wf(path.push(x)),
            !on_path(path, x),
            node_of(before.flat@, x) == Some(xi),
            acc@ == fold_parents(before.flat@, before.cur(), parents_of(before.flat@, xi), before.flat@[xi].1),
            keys_unique(acc@.variables),
            forall|k: int| 0 <= k < parents_of(before.flat@, xi).len() ==> {
                let p = node_of(before.flat@, #[trigger] parents_of(before.flat@, xi)[k]);
                &&& p is Some
                &&& before.is_done(path.push(x), p->0)
            },
            after.flat@ == before.flat@,
            after.refs@ == before.refs@,
            after.pending == before.pending,
            after.profiles@ == before.profiles@.update(xi, acc),
            after.rank@ == before.rank@.update(xi, before.next_rank@),
            after.next_rank@ == before.next_rank@ + 1,
        ensures
            after.wf(path),
            before.keeps(after, path.push(x), path),
            after.is_done(path, xi),
    {
        reveal(Resolver::wf);
        let flat = before.flat@;
        let px = path.push(x);
        lemma_on_path_push(path, x);
        lemma_node_of_some(flat, x);
        assert(0 <= xi < flat.len());
        assert(flat[xi].0 == x);
        assert(on_path(px, x));
        assert(!before.is_done(px, xi));
        assert(after.cur() =~= before.cur().update(xi, acc@));
        // Done under the longer path means done under the shorter one
        assert forall|i: int| 0 <= i < flat.len() && #[trigger] before.is_done(px, i) implies after.is_done(path, i) && i != xi by {}
        assert forall|i: int| 0 <= i < flat.len() && i != xi implies #[trigger] after.is_done(path, i) == before.is_done(px, i) by {
            lemma_node_of(flat, i);
        }
        assert(px[path.len() as int] == x);
        assert(!before.pending_has(x));
        assert(after.is_done(path, xi));
        // The parents of a finished profile never include the one being finished
        assert forall|i: int| 0 <= i < flat.len() && before.is_done(px, i) implies fold_parents(flat, after.cur(), parents_of(flat, i), flat[i].1)
            == #[trigger] fold_parents(flat, before.cur(), parents_of(flat, i), flat[i].1) by {
            assert(before.done_ok(px, i));
            assert forall|k: int| 0 <= k < parents_of(flat, i).len() implies match node_of(flat, #[trigger] parents_of(flat, i)[k]) {
                Some(j) => before.cur()[j] == after.cur()[j],
                None => true,
            } by {
                let j = node_of(flat, parents_of(flat, i)[k])->0;
                assert(before.is_done(px, j));
            }
            lemma_fold_frame(flat, before.cur(), after.cur(), parents_of(flat, i), flat[i].1);
        }
        assert(fold_parents(flat, after.cur(), parents_of(flat, xi), flat[xi].1) == fold_parents(flat, before.cur(), parents_of(flat, xi), flat[xi].1)) by {
            assert forall|k: int| 0 <= k < parents_of(flat, xi).len() implies match node_of(flat, #[trigger] parents_of(flat, xi)[k]) {
                Some(j) => before.cur()[j] == after.cur()[j],
                None => true,
            } by {
                let j = node_of(flat, parents_of(flat, xi)[k])->0;
                assert(before.is_done(px, j));
            }
            lemma_fold_frame(flat, before.cur(), after.cur(), parents_of(flat, xi), flat[xi].1);
        }
        assert forall|i: int| 0 <= i < flat.len() && after.is_done(path, i) implies #[trigger] after.done_ok(path, i) by {
            if i == xi {
                assert forall|k: int| 0 <= k < parents_of(flat, i).len() implies {
                    let p = node_of(flat, #[trigger] parents_of(flat, i)[k]);
                    &&& p is Some
                    &&& after.is_done(path, p->0)
                    &&& after.rank@[p->0] < after.rank@[i]
                } by {
                    let j = node_of(flat, parents_of(flat, i)[k])->0;
                    assert(before.is_done(px, j));
                    assert(before.done_ok(px, j));
                }
            } else {
                assert(before.is_done(px, i));
                assert(before.done_ok(px, i));
                assert forall|k: int| 0 <= k < parents_of(flat, i).len() implies {
                    let p = node_of(flat, #[trigger] parents_of(flat, i)[k]);
                    &&& p is Some
                    &&& after.is_done(path, p->0)
                    &&& after.rank@[p->0] < after.rank@[i]
                } by {
                    let j = node_of(flat, parents_of(flat, i)[k])->0;
                    assert(before.is_done(px, j));
                }
            }
        }
        assert forall|i: int| 0 <= i < flat.len() && !after.is_done(path, i) implies #[trigger] after.cur()[i] == flat[i].1 by {
            assert(!before.is_done(px, i));
        }
        assert forall|i: int| 0 <= i < flat.len() implies keys_unique((#[trigger] after.profiles@[i])@.variables) by {
            if i != xi {
                assert(after.profiles@[i] == before.profiles@[i]);
            }
        }
        assert forall|j: int| 0 <= j < path.len() implies node_of(flat, #[trigger] path[j]) is Some && !after.pending_has(path[j]) by {
            assert(px[j] == path[j]);
        }
        assert forall|i: int| 0 <= i < flat.len() implies (#[trigger] after.refs@[i])@ == flat[i].0 by {
            assert(after.refs@[i] == before.refs@[i]);
        }
        assert(after.wf(path));
        assert forall|i: int| 0 <= i < flat.len() && before.is_done(px, i) implies after.is_done(path, i)
            && after.cur()[i] == before.cur()[i] && after.rank@[i] == before.rank@[i] by {}
        assert(before.keeps(after, px, path));
    }
}


/// A chain extended by a parent of its last member is still a chain
proof fn lemma_chain_push(flat: Seq<(RefView, ProfileView)>, path: Seq<RefView>, p: RefView)
    requires
        path.len() > 0,
        is_chain(flat, path),
        parents_of(flat, node_of(flat, path.last())->0).contains(p),
    ensures
        is_chain(flat, path.push(p)),
{
    let pp = path.push(p);
    assert forall|j: int| 0 <= j < pp.len() - 1 implies parents_of(flat, node_of(flat, #[trigger] pp[j])->0).contains(pp[j + 1]) by {
        if j < path.len() - 1 {
            assert(pp[j] == path[j]);
            assert(pp[j + 1] == path[j + 1]);
        } else {
            assert(pp[j] == path.last());
        }
    }
}

/// A chain whose last member extends one of its members is a cycle
proof fn lemma_cycle_found(flat: Seq<(RefView, ProfileView)>, path: Seq<RefView>, p: RefView)
    requires
        path.len() > 0,
        is_chain(flat, path),
        forall|j: int| 0 <= j < path.len() ==> node_of(flat, #[trigger] path[j]) is Some,
        parents_of(flat, node_of(flat, path.last())->0).contains(p),
        path.contains(p),
    ensures
        is_cycle(flat, path),
{
    let m = choose|m: int| 0 <= m < path.len() && path[m] == p;
    assert(parents_of(flat, node_of(flat, path.last())->0).contains(path[m]));
}

impl Resolver {
    proof fn lemma_wf_basics(&self, path: Seq<RefView>)
        requires
            self.wf(path),
        ensures
            refs_unique(self.flat@),
            self.refs@.len() == self.flat@.len(),
            self.profiles@.len() == self.flat@.len(),
            self.rank@.len() == self.flat@.len(),
            forall|i: int| 0 <= i < self.flat@.len() ==> (#[trigger] self.refs@[i])@ == self.flat@[i].0,
            forall|i: int| 0 <= i < self.flat@.len() ==> keys_unique((#[trigger] self.profiles@[i])@.variables),
            forall|j: int| 0 <= j < path.len() ==> node_of(self.flat@, #[trigger] path[j]) is Some && !self.pending_has(path[j]),
    {
        reveal(Resolver::wf);
    }

    /// Two states that differ at most in how the waiting map is stored
    proof fn lemma_same_pending(a: Resolver, b: Resolver, path: Seq<RefView>)
        requires
            a.wf(path),
            b.flat == a.flat,
            b.refs == a.refs,
            b.profiles == a.profiles,
            b.rank == a.rank,
            b.next_rank == a.next_rank,
            pending_entries(b.pending) == pending_entries(a.pending),
        ensures
            b.wf(path),
            a.keeps(b, path, path),
    {
        reveal(Resolver::wf);
        assert(pending_view(b.pending) == pending_view(a.pending));
        assert forall|i: int| 0 <= i < a.flat@.len() && a.is_done(path, i) implies #[trigger] b.is_done(path, i)
            && b.cur()[i] == a.cur()[i] && b.rank@[i] == a.rank@[i] by {}
        assert forall|i: int| 0 <= i < a.flat@.len() && b.is_done(path, i) implies #[trigger] b.done_ok(path, i) by {
            assert(a.is_done(path, i));
            assert(a.done_ok(path, i));
        }
        assert forall|i: int| 0 <= i < a.flat@.len() && !b.is_done(path, i) implies #[trigger] b.cur()[i] == b.flat@[i].1 by {
            assert(!a.is_done(path, i));
            assert(a.cur()[i] == b.cur()[i]);
        }
    }

    /// Resolve one profile: combine its parents, last to first (each earlier
    /// parent over the later ones), after resolving each parent that is still
    /// waiting, and merge them into it. `visited` holds, in
    /// order, the profiles being resolved further up.
    fn resolve_profile(
        &mut self,
        reference: ProfileReference,
        parents: IndexSet<ProfileReference>,
        visited: IndexSet<ProfileReference>,
    ) -> (r: Result<(), InheritanceError>)
        requires
            old(self).wf(references_view(visited).push(reference@)),
            !on_path(references_view(visited), reference@),
            references_view(parents) == parents_of(old(self).flat@, node_of(old(self).flat@, reference@)->0),
            is_chain(old(self).flat@, references_view(visited).push(reference@)),
            no_dups(references_view(visited)),
        ensures
            final(self).flat@ == old(self).flat@,
            r is Ok ==> final(self).wf(references_view(visited)),
            r is Ok ==> old(self).keeps(*final(self), references_view(visited).push(reference@), references_view(visited)),
            r is Err ==> error_valid(old(self).flat@, r->Err_0),
            r is Err ==> local_error(old(self).flat@, references_view(visited).push(reference@), reference@, r->Err_0),
            r is Ok <==> sound_from(old(self).flat@, references_view(visited).push(reference@), reference@),
            // On success the profile holds its own values with its parents
            // merged in, and none of its parents waits any more
            r is Ok ==> final(self).cur()[node_of(old(self).flat@, reference@)->0] == fold_parents(
                old(self).flat@,
                final(self).cur(),
                references_view(parents),
                old(self).flat@[node_of(old(self).flat@, reference@)->0].1,
            ),
            r is Ok ==> forall|q: int| 0 <= q < references_view(parents).len()
                ==> !final(self).pending_has(#[trigger] references_view(parents)[q]),
            (outcome(r), pending_view(final(self).pending)) == walk_profile(
                old(self).flat@,
                pending_view(old(self).pending),
                references_view(visited),
                reference@,
                references_view(parents),
            ),
            // The last parent is handled first: when it is on the path, or
            // names no profile, that is the error, and nothing has changed
            references_view(parents).len() > 0 && on_path(references_view(visited).push(reference@), references_view(parents).last())
                ==> (r matches Err(InheritanceError::Cycle { path: v }) && references_seq_view(v@) == references_view(visited).push(reference@))
                && final(self).profiles@ == old(self).profiles@ && pending_view(final(self).pending) == pending_view(old(self).pending),
            references_view(parents).len() > 0 && !on_path(references_view(visited).push(reference@), references_view(parents).last())
                && node_of(old(self).flat@, references_view(parents).last()) is None
                ==> (r matches Err(InheritanceError::Unknown { reference: u }) && u@ == references_view(parents).last())
                && final(self).profiles@ == old(self).profiles@ && pending_view(final(self).pending) == pending_view(old(self).pending),
        decreases pending_entries(old(self).pending).len(),
    {
        let ghost flat = self.flat@;
        let ghost path = references_view(visited);
        let ghost px = path.push(reference@);
        let ghost start = *self;
        let ghost ps = references_view(parents);
        proof {
            self.lemma_wf_basics(px);
            assert(px[path.len() as int] == reference@);
            lemma_node_of_some(flat, reference@);
            reveal(on_path);
        }
        let mut visiting = copy_references(&visited);
        references_insert(&mut visiting, reference.clone());
        assert(references_view(visiting) =~= px);
        proof {
            lemma_no_dups_push(path, reference@);
        }
        let xi = match self.find(&reference) {
            Some(xi) => xi,
            None => {
                assert(false);
                return Ok(());
            },
        };
        let mut combined = new_empty_profile();
        let np = references_len(&parents);
        let mut k: usize = np;
        let ghost mut first = true;
        proof {
            assert(ps.skip(np as int) =~= Seq::<RefView>::empty());
            assert(self.cur()[xi as int] == flat[xi as int].1) by {
                reveal(Resolver::wf);
                lemma_on_path_push(path, reference@);
                assert(!self.is_done(px, xi as int));
            }
            assert(start.keeps(*self, px, px));
        }
        while k > 0
            invariant
                self.flat@ == flat,
                start.flat@ == flat,
                old(self).flat@ == flat,
                self.wf(px),
                start.keeps(*self, px, px),
                pending_entries(start.pending).len() == pending_entries(old(self).pending).len(),
                references_view(visiting) == px,
                path == references_view(visited),
                references_view(parents) == ps,
                px == path.push(reference@),
                !on_path(path, reference@),
                ps == parents_of(flat, xi as int),
                node_of(flat, reference@) == Some(xi as int),
                0 <= xi < flat.len(),
                flat[xi as int].0 == reference@,
                np == ps.len(),
                k <= np,
                combined@ == combine_parents(flat, self.cur(), ps.skip(k as int)),
                keys_unique(combined@.variables),
                forall|q: int| 0 <= q < ps.skip(k as int).len() ==> {
                    let p = node_of(flat, #[trigger] ps.skip(k as int)[q]);
                    &&& p is Some
                    &&& 0 <= p->0 < flat.len()
                    &&& self.is_done(px, p->0)
                },
                is_chain(flat, px),
                no_dups(px),
                px.len() > 0 && px.last() == reference@,
                first ==> k == np && self.profiles@ == start.profiles@ && pending_view(self.pending) == pending_view(start.pending),
                start.profiles@ == old(self).profiles@,
                pending_view(start.pending) == pending_view(old(self).pending),
                !first ==> np > 0 && !on_path(px, ps.last()) && node_of(flat, ps.last()) is Some,
                walk_parents(flat, pending_view(start.pending), px, ps, np as int)
                    == walk_parents(flat, pending_view(self.pending), px, ps, k as int),
            decreases k,
        {
            k = k - 1;
            let parent = references_get_index(&parents, k).unwrap();
            let ghost pr = parent@;
            assert(pr == ps[k as int]);
            assert(ps.contains(pr));
            proof {
                self.lemma_wf_basics(px);
                assert(px.last() == reference@);
            }
            if references_contains(&visiting, parent) {
                let cycle = references_to_vec(&visiting);
                let e = InheritanceError::Cycle { path: cycle };
                proof {
                    lemma_cycle_found(flat, px, pr);
                    assert(px.take(px.len() as int) =~= px);
                    assert(local_error(flat, px, reference@, e));
                    lemma_local_error_unsound(flat, px, reference@, e);
                    assert(old(self).flat@ == flat);
                    assert(px == path.push(reference@));
                    assert(local_error(old(self).flat@, path.push(reference@), reference@, e));
                }
                return Err(e);
            }
            proof {
                reveal(on_path);
            }
            let ghost iter_start = *self;
            let removed = pending_swap_remove(&mut self.pending, parent);
            match removed {
                Some(grandparents) => {
                    let ghost mid = *self;
                    let ghost pv = pending_view(iter_start.pending);
                    proof {
                        if pending_pos(pv, pr) is None {
                            assert forall|i: int| 0 <= i < pending_entries(iter_start.pending).len()
                                implies #[trigger] pending_entries(iter_start.pending)[i].0@ != pr by {
                                assert(pv[i].0 == pending_entries(iter_start.pending)[i].0@);
                            }
                            assert(false);
                        }
                    }
                    let ghost ip = pending_pos(pv, pr)->0;
                    proof {
                        assert(pending_entries(iter_start.pending)[ip].0@ == pv[ip].0);
                        assert(pending_view(mid.pending) =~= pv.update(ip, pv.last()).drop_last());
                        Resolver::lemma_move_to_path(iter_start, mid, px, ip);
                        assert(pv[ip].0 == pr);
                        lemma_chain_push(flat, px, pr);
                    }
                    let res = self.resolve_profile(parent.clone(), grandparents, copy_references(&visiting));
                    match res {
                        Ok(()) => {},
                        Err(e) => {
                            proof {
                                lemma_local_error_lift(flat, px, reference@, pr, e);
                                lemma_local_error_unsound(flat, px, reference@, e);
                            }
                            return Err(e);
                        },
                    }
                    proof {
                        Resolver::lemma_keeps_trans(iter_start, mid, *self, px, px.push(pr), px);
                        mid.lemma_wf_basics(px.push(pr));
                        assert(px.push(pr)[px.len() as int] == pr);
                        assert(!mid.pending_has(pr));
                        assert(!self.pending_has(pr));
                    }
                },
                None => {
                    proof {
                        Resolver::lemma_same_pending(iter_start, *self, px);
                        reveal(pending_key);
                        assert(!self.pending_has(pr));
                    }
                },
            }
            proof {
                self.lemma_wf_basics(px);
                Resolver::lemma_keeps_trans(start, iter_start, *self, px, px, px);
            }
            let pi = match self.find(parent) {
                Some(pi) => pi,
                None => {
                    let e = InheritanceError::Unknown { reference: parent.clone() };
                    proof {
                        let c = seq![reference@];
                        assert(chain_from(flat, c, reference@));
                        assert(c.last() == reference@);
                        assert(local_error(flat, px, reference@, e));
                        lemma_local_error_unsound(flat, px, reference@, e);
                    }
                    return Err(e);
                },
            };
            proof {
                lemma_node_of_some(flat, pr);
                assert(self.is_done(px, pi as int));
                Resolver::lemma_acc_frame(iter_start, *self, px, px, ps.skip(k + 1));
                assert(ps.skip(k as int).drop_first() =~= ps.skip(k + 1));
                assert(ps.skip(k as int)[0] == pr);
            }
            let merged = overlay(&combined, &self.profiles[pi]);
            combined = merged;
            proof {
                if first {
                    assert(ps.last() == ps[k as int]);
                    reveal(on_path);
                }
                first = false;
            }
            proof {
                assert forall|q: int| 0 <= q < ps.skip(k as int).len() implies {
                    let p = node_of(flat, #[trigger] ps.skip(k as int)[q]);
                    &&& p is Some
                    &&& 0 <= p->0 < flat.len()
                    &&& self.is_done(px, p->0)
                } by {
                    if q > 0 {
                        assert(ps.skip(k as int)[q] == ps.skip(k + 1)[q - 1]);
                    }
                }
            }
        }
        assert(ps.skip(0) =~= ps);
        proof {
            self.lemma_wf_basics(px);
            reveal(Resolver::wf);
            lemma_on_path_push(path, reference@);
            assert(!self.is_done(px, xi as int));
            assert(self.cur()[xi as int] == self.profiles@[xi as int]@);
            assert(self.profiles@[xi as int]@ == flat[xi as int].1);
            assert(combined@ == combine_parents(flat, self.cur(), ps));
        }
        let acc = if np == 0 {
            self.profiles[xi].copy()
        } else {
            inherit_from(&self.profiles[xi], &combined)
        };
        let ghost before = *self;
        let ghost acc_g = acc;
        assert(acc@ == fold_parents(flat, self.cur(), ps, flat[xi as int].1));
        self.profiles.set(xi, acc);
        self.rank = Ghost(self.rank@.update(xi as int, self.next_rank@));
        self.next_rank = Ghost(self.next_rank@ + 1);
        proof {
            Resolver::lemma_finish(before, *self, path, reference@, xi as int, acc_g);
            Resolver::lemma_keeps_trans(start, before, *self, px, px, path);
            Resolver::lemma_done_sound(*self, path, reference@);
            reveal(Resolver::wf);
            assert(self.done_ok(path, xi as int));
            assert forall|q: int| 0 <= q < ps.len() implies !self.pending_has(#[trigger] ps[q]) by {
                let p = node_of(flat, ps[q]);
                assert(self.is_done(path, p->0));
                lemma_node_of_some(flat, ps[q]);
            }
        }
        Ok(())
    }
}


impl Resolver {
    /// With nothing waiting and nothing on the path, every profile is
    /// resolved
    proof fn lemma_all_done(r: Resolver)
        requires
            r.wf(Seq::empty()),
            pending_entries(r.pending).len() == 0,
        ensures
            is_resolution(r.flat@, r.cur()),
            ranked(r.flat@, r.rank@),
            all_known(r.flat@),
            r.profiles@.len() == r.flat@.len(),
            forall|i: int| 0 <= i < r.flat@.len() ==> keys_unique((#[trigger] r.profiles@[i])@.variables),
    {
        reveal(Resolver::wf);
        reveal(pending_key);
        reveal(on_path);
        let flat = r.flat@;
        assert forall|i: int| 0 <= i < flat.len() implies #[trigger] r.done_ok(Seq::empty(), i) by {
            assert(r.is_done(Seq::empty(), i));
        }
        assert forall|i: int| 0 <= i < flat.len() implies #[trigger] r.cur()[i] == fold_parents(flat, r.cur(), parents_of(flat, i), flat[i].1) by {
            assert(r.done_ok(Seq::empty(), i));
        }
        assert forall|i: int, k: int| 0 <= i < flat.len() && 0 <= k < parents_of(flat, i).len() implies
            match node_of(flat, #[trigger] parents_of(flat, i)[k]) {
                Some(p) => r.rank@[p] < r.rank@[i],
                None => true,
            } && node_of(flat, parents_of(flat, i)[k]) is Some by {
            assert(r.done_ok(Seq::empty(), i));
        }
    }

    /// Resolve every waiting profile, most recently listed first
    fn resolve_all(&mut self) -> (r: Result<(), InheritanceError>)
        requires
            old(self).wf(Seq::empty()),
        ensures
            final(self).flat@ == old(self).flat@,
            r is Ok ==> final(self).wf(Seq::empty()) && pending_entries(final(self).pending).len() == 0,
            r is Err ==> error_valid(old(self).flat@, r->Err_0),
            r is Err ==> exists|x: RefView| local_error(old(self).flat@, seq![x], x, r->Err_0),
            outcome(r) == walk_all(old(self).flat@, pending_view(old(self).pending)),
            // The last waiting profile is resolved first: a defect met from
            // it is the error
            pending_view(old(self).pending).len() > 0 && !sound_from(
                old(self).flat@,
                seq![pending_view(old(self).pending).last().0],
                pending_view(old(self).pending).last().0,
            ) ==> r is Err && local_error(
                old(self).flat@,
                seq![pending_view(old(self).pending).last().0],
                pending_view(old(self).pending).last().0,
                r->Err_0,
            ),
    {
        let ghost flat = self.flat@;
        let ghost pv0 = pending_view(self.pending);
        let ghost mut first = true;
        loop
            invariant
                self.wf(Seq::empty()),
                self.flat@ == old(self).flat@,
                flat == old(self).flat@,
                pv0 == pending_view(old(self).pending),
                first ==> pending_view(self.pending) == pv0,
                !first && pv0.len() > 0 ==> sound_from(flat, seq![pv0.last().0], pv0.last().0),
                walk_all(flat, pv0) == walk_all(flat, pending_view(self.pending)),
            decreases pending_entries(self.pending).len(),
        {
            let ghost before = *self;
            let ghost pv = pending_view(before.pending);
            match pending_pop(&mut self.pending) {
                Some((reference, parents)) => {
                    let ghost x = reference@;
                    let ghost mid = *self;
                    let ghost ip = pv.len() - 1;
                    proof {
                        assert(pv.update(ip, pv.last()) =~= pv);
                        assert(pending_view(mid.pending) =~= pv.update(ip, pv.last()).drop_last());
                        Resolver::lemma_move_to_path(before, mid, Seq::empty(), ip);
                        assert(pv[ip].0 == reference@);
                        assert(Seq::<RefView>::empty().push(reference@) =~= seq![reference@]);
                        reveal(on_path);
                    }
                    let visited = references_new();
                    assert(references_view(visited) =~= Seq::<RefView>::empty());
                    match self.resolve_profile(reference, parents, visited) {
                        Ok(()) => {
                            proof {
                                if first {
                                    assert(pv0.last().0 == x);
                                }
                                first = false;
                            }
                        },
                        Err(e) => {
                            proof {
                                assert(local_error(flat, seq![x], x, e));
                                if first {
                                    assert(pv0.last().0 == x);
                                }
                            }
                            return Err(e);
                        },
                    }
                },
                None => {
                    proof {
                        Resolver::lemma_same_pending(before, *self, Seq::empty());
                    }
                    return Ok(());
                },
            }
        }
    }
}


/// A copy of `config` whose profiles, in flattened order, are `resolved`
fn with_profiles(config: &Config, resolved: &Vec<Profile>) -> (r: Config)
    requires
        resolved@.len() == flatten(config@).len(),
        config_keys_unique(config@),
    ensures
        shape(r@) == shape(config@),
        flatten(r@).len() == flatten(config@).len(),
        forall|k: int| 0 <= k < flatten(config@).len() ==> (#[trigger] flatten(r@)[k]).0 == flatten(config@)[k].0,
        forall|k: int| 0 <= k < flatten(config@).len() ==> (#[trigger] flatten(r@)[k]).1 == resolved@[k]@,
{
    let ghost cv = config@;
    let napps = applications_len(&config.applications);
    let mut applications = applications_new();
    let mut offset: usize = 0;
    let mut a: usize = 0;
    proof {
        assert(applications_view(applications) =~= Seq::<(Seq<char>, ApplicationView)>::empty());
        assert(cv.take(0) =~= Seq::<(Seq<char>, ApplicationView)>::empty());
        assert(shape(applications_view(applications)) =~= shape(cv.take(0)));
    }
    while a < napps
        invariant
            cv == config@,
            napps == cv.len(),
            a <= napps,
            config_keys_unique(cv),
            resolved@.len() == flatten(cv).len(),
            offset == flatten(cv.take(a as int)).len(),
            applications_view(applications).len() == a,
            forall|j: int| 0 <= j < a ==> (#[trigger] applications_view(applications)[j]).0 == cv[j].0,
            shape(applications_view(applications)) == shape(cv.take(a as int)),
            flatten(applications_view(applications)).len() == offset,
            forall|k: int| 0 <= k < offset ==> (#[trigger] flatten(applications_view(applications))[k]).0 == flatten(cv.take(a as int))[k].0,
            forall|k: int| 0 <= k < offset ==> (#[trigger] flatten(applications_view(applications))[k]).1 == resolved@[k]@,
        decreases napps - a,
    {
        let (aname, app) = applications_get_index(&config.applications, a).unwrap();
        assert(cv[a as int] == (aname@, app@));
        proof {
            lemma_flatten_step(cv, a as int);
            lemma_flatten_prefix(cv, a + 1);
            assert(keys_unique(cv[a as int].1));
            assert(app_entries(aname@, app@).len() == app@.len());
        }
        let np = profiles_len(&app.profiles);
        let mut profiles = profiles_new();
        let mut p: usize = 0;
        assert(profiles_view(profiles) =~= Seq::<(Seq<char>, ProfileView)>::empty());
        while p < np
            invariant
                np == app@.len(),
                p <= np,
                keys_unique(app@),
                offset + np <= resolved.len(),
                profiles_view(profiles).len() == p,
                forall|q: int| 0 <= q < p ==> (#[trigger] profiles_view(profiles)[q]).0 == app@[q].0,
                forall|q: int| 0 <= q < p ==> (#[trigger] profiles_view(profiles)[q]).1 == resolved@[offset + q]@,
            decreases np - p,
        {
            let (pname, _profile) = profiles_get_index(&app.profiles, p).unwrap();
            assert(app@[p as int].0 == pname@);
            let ghost before = profiles_view(profiles);
            assert forall|q: int| 0 <= q < profile_entries(profiles).len() implies #[trigger] profile_entries(profiles)[q].0@ != pname@ by {
                assert(before[q].0 == profile_entries(profiles)[q].0@);
                assert(app@[q].0 != app@[p as int].0);
            }
            profiles_insert(&mut profiles, pname.clone(), resolved[offset + p].copy());
            assert(profiles_view(profiles) =~= before.push((pname@, resolved@[offset + p]@)));
            p = p + 1;
        }
        let ghost before = applications_view(applications);
        let new_app = Application { profiles };
        assert forall|j: int| 0 <= j < application_entries(applications).len() implies #[trigger] application_entries(applications)[j].0@ != aname@ by {
            assert(before[j].0 == application_entries(applications)[j].0@);
            assert(cv[j].0 != cv[a as int].0);
        }
        applications_insert(&mut applications, aname.clone(), new_app);
        proof {
            let nv = applications_view(applications);
            let ae = app_entries(aname@, new_app@);
            let oe = app_entries(aname@, app@);
            assert(nv =~= before.push((aname@, new_app@)));
            assert(nv.drop_last() =~= before);
            assert(flatten(nv) == flatten(before) + ae);
            assert(flatten(cv.take(a + 1)) == flatten(cv.take(a as int)) + oe);
            assert(new_app@.map_values(|e: (Seq<char>, ProfileView)| e.0) =~= app@.map_values(|e: (Seq<char>, ProfileView)| e.0));
            assert(cv.take(a + 1) =~= cv.take(a as int).push(cv[a as int]));
            assert forall|j: int| 0 <= j < a + 1 implies #[trigger] shape(nv)[j] == shape(cv.take(a + 1))[j] by {
                if j < a {
                    assert(nv[j] == before[j]);
                    assert(cv.take(a + 1)[j] == cv.take(a as int)[j]);
                    assert(shape(before)[j] == shape(cv.take(a as int))[j]);
                }
            }
            assert(shape(nv) =~= shape(cv.take(a + 1)));
            assert forall|k: int| 0 <= k < offset + np implies (#[trigger] flatten(nv)[k]).0 == flatten(cv.take(a + 1))[k].0
                && flatten(nv)[k].1 == resolved@[k]@ by {
                if k < offset {
                    assert(flatten(nv)[k] == flatten(before)[k]);
                    assert(flatten(cv.take(a + 1))[k] == flatten(cv.take(a as int))[k]);
                } else {
                    assert(flatten(nv)[k] == ae[k - offset]);
                    assert(flatten(cv.take(a + 1))[k] == oe[k - offset]);
                }
            }
        }
        offset = offset + np;
        a = a + 1;
    }
    let r = Config { applications };
    proof {
        assert(cv.take(napps as int) =~= cv);
    }
    r
}


/// Every error names a genuine defect: a parent without an application, a
/// cycle, or a parent that names no profile
pub proof fn lemma_error_is_defect(flat: Seq<(RefView, ProfileView)>, e: InheritanceError)
    requires
        error_valid(flat, e),
    ensures
        has_unqualified(flat) || !all_known(flat) || !acyclic(flat),
{
    match e {
        InheritanceError::Unqualified { parent, profile } => {
            let i = choose|i: int| 0 <= i < flat.len() && #[trigger] flat[i].0.profile == profile@ && parents_of(flat, i).contains(parent@)
                && parent@.application is None;
            let k = choose|k: int| 0 <= k < parents_of(flat, i).len() && parents_of(flat, i)[k] == parent@;
            assert((parents_of(flat, i)[k]).application is None);
        },
        InheritanceError::Cycle { path } => {
            lemma_cycle_not_acyclic(flat, references_seq_view(path@));
        },
        InheritanceError::Unknown { reference } => {
            let i = choose|i: int| 0 <= i < flat.len() && #[trigger] parents_of(flat, i).contains(reference@);
            let k = choose|k: int| 0 <= k < parents_of(flat, i).len() && parents_of(flat, i)[k] == reference@;
            assert(node_of(flat, parents_of(flat, i)[k]) is None);
        },
    }
}

/// An unqualified-parent error names a parent without an application
proof fn lemma_unqualified_error(flat: Seq<(RefView, ProfileView)>, e: InheritanceError)
    requires
        error_valid(flat, e),
        e is Unqualified,
    ensures
        has_unqualified(flat),
{
    if let InheritanceError::Unqualified { parent, profile } = e {
        let i = choose|i: int| 0 <= i < flat.len() && #[trigger] flat[i].0.profile == profile@ && parents_of(flat, i).contains(parent@)
            && parent@.application is None;
        let k = choose|k: int| 0 <= k < parents_of(flat, i).len() && parents_of(flat, i)[k] == parent@;
        assert((parents_of(flat, i)[k]).application is None);
    }
}

impl Config {
    /// Resolve inheritance for all profiles: each profile gets its parents
    /// (its `extends` list) merged into it, recursively. A parent's
    /// variables are kept where the child does not define them, and its side
    /// effects run before the child's. Of two parents, the left-most one's
    /// variables take precedence and its side effects run first.
    ///
    /// This succeeds exactly when every parent is qualified, names an
    /// existing profile, and no profile inherits from itself, directly or
    /// not. On success every profile holds its resolved value; on failure the
    /// config is unchanged.
    pub fn inherit(&mut self) -> (r: Result<(), InheritanceError>)
        ensures
            r is Ok <==> (!has_unqualified(flatten(old(self)@)) && all_known(flatten(old(self)@)) && acyclic(flatten(old(self)@))),
            has_unqualified(flatten(old(self)@)) ==> r is Err && r->Err_0 is Unqualified,
            r is Ok ==> shape(final(self)@) == shape(old(self)@),
            r is Ok ==> flat_refs(flatten(final(self)@)) == flat_refs(flatten(old(self)@)),
            r is Ok ==> is_resolution(flatten(old(self)@), profile_views(flatten(final(self)@))),
            forall|k: int| 0 <= k < flatten(old(self)@).len() ==> keys_unique((#[trigger] flatten(old(self)@)[k]).1.variables),
            r is Ok ==> forall|k: int| 0 <= k < flatten(final(self)@).len() ==> keys_unique((#[trigger] flatten(final(self)@)[k]).1.variables),
            r is Err ==> *final(self) == *old(self),
            r is Err ==> error_valid(flatten(old(self)@), r->Err_0),
            r is Err && !(r->Err_0 is Unqualified) ==> exists|x: RefView| local_error(flatten(old(self)@), seq![x], x, r->Err_0),
            r matches Err(InheritanceError::Cycle { path }) ==> no_dups(references_seq_view(path@)),
            // Which error is reported: the first defect met when the waiting
            // profiles are resolved, the last one first, each parent list
            // walked from its last member
            !has_unqualified(flatten(old(self)@)) ==> outcome(r) == walk_all(flatten(old(self)@), queue(flatten(old(self)@))),
            // Resolution starts from the last profile (in config order) that
            // has parents: a defect met from it is the error reported
            !has_unqualified(flatten(old(self)@)) && queue(flatten(old(self)@)).len() > 0 && !sound_from(
                flatten(old(self)@),
                seq![queue(flatten(old(self)@)).last().0],
                queue(flatten(old(self)@)).last().0,
            ) ==> r is Err && local_error(
                flatten(old(self)@),
                seq![queue(flatten(old(self)@)).last().0],
                queue(flatten(old(self)@)).last().0,
                r->Err_0,
            ),
    {
        let ghost flat = flatten(self@);
        let mut resolver = match Resolver::new(self) {
            Ok(resolver) => resolver,
            Err(e) => {
                proof {
                    lemma_error_is_defect(flat, e);
                    lemma_unqualified_error(flat, e);
                }
                return Err(e);
            },
        };
        match resolver.resolve_all() {
            Ok(()) => {},
            Err(e) => {
                proof {
                    lemma_error_is_defect(flat, e);
                    let x = choose|x: RefView| local_error(flat, seq![x], x, e);
                    assert(local_error(flat, seq![x], x, e));
                }
                return Err(e);
            },
        }
        proof {
            Resolver::lemma_all_done(resolver);
        }
        let resolved = with_profiles(self, &resolver.profiles);
        proof {
            let fr = flatten(resolved@);
            assert(profile_views(fr) =~= resolver.cur());
            assert forall|k: int| 0 <= k < fr.len() implies keys_unique((#[trigger] fr[k]).1.variables) by {
                assert(fr[k].1 == resolver.profiles@[k]@);
            }
            assert(flat_refs(fr) =~= flat_refs(flat));
            assert(ranked(flat, resolver.rank@));
        }
        *self = resolved;
        Ok(())
    }
}


/// Each reference of `path` followed by ` -> `
pub open spec fn chain_text(path: Seq<RefView>) -> Seq<char>
    decreases path.len(),
{
    if path.len() == 0 {
        Seq::empty()
    } else {
        chain_text(path.drop_last()) + reference_text(path.last()) + " -> "@
    }
}

/// The message of an inheritance error
pub open spec fn error_text(e: InheritanceError) -> Seq<char> {
    match e {
        InheritanceError::Unqualified { parent, profile } => "Unqualified parent `"@ + reference_text(parent@)
            + "` for profile `"@ + profile@ + "`"@,
        InheritanceError::Cycle { path } => "Inheritance cycle detected: "@ + chain_text(references_seq_view(path@))
            + reference_text(path@[0]@),
        InheritanceError::Unknown { reference } => "Unknown profile: "@ + reference_text(reference@),
    }
}

impl InheritanceError {
    /// The error message. A cycle is shown as the chain of profiles being
    /// resolved, closed by its first member again: `a -> b -> a`.
    pub fn message(&self) -> (r: String)
        requires
            self is Cycle ==> self->path@.len() > 0,
        ensures
            r@ == error_text(*self),
    {
        match self {
            InheritanceError::Unqualified { parent, profile } => {
                let mut s = "Unqualified parent `".to_string();
                s.append(parent.to_string().as_str());
                s.append("` for profile `");
                s.append(profile.as_str());
                s.append("`");
                s
            },
            InheritanceError::Cycle { path } => {
                let mut s = "Inheritance cycle detected: ".to_string();
                let ghost start = s@;
                let ghost pv = references_seq_view(path@);
                let mut i: usize = 0;
                while i < path.len()
                    invariant
                        i <= path@.len(),
                        pv == references_seq_view(path@),
                        s@ == start + chain_text(pv.take(i as int)),
                    decreases path@.len() - i,
                {
                    let ghost before = s@;
                    s.append(path[i].to_string().as_str());
                    s.append(" -> ");
                    proof {
                        assert(pv.take(i + 1).drop_last() =~= pv.take(i as int));
                        assert(pv.take(i + 1).last() == path@[i as int]@);
                        assert(s@ =~= start + chain_text(pv.take(i + 1)));
                    }
                    i = i + 1;
                }
                assert(pv.take(path@.len() as int) =~= pv);
                s.append(path[0].to_string().as_str());
                assert(s@ =~= error_text(*self));
                s
            },
            InheritanceError::Unknown { reference } => {
                let mut s = "Unknown profile: ".to_string();
                s.append(reference.to_string().as_str());
                s
            },
        }
    }
}


// ---------------------------------------------------------------------------
// Laws of inheritance
// ---------------------------------------------------------------------------

pub proof fn lemma_lookup_push<V>(m: Seq<(Seq<char>, V)>, e: (Seq<char>, V), k: Seq<char>)
    requires
        keys_unique(m.push(e)),
    ensures
        lookup(m.push(e), k) == (if k == e.0 { Some(e.1) } else { lookup(m, k) }),
{
    let p = m.push(e);
    assert(p[m.len() as int] == e);
    if k == e.0 {
        assert(p[m.len() as int].0 == k);
        let i = choose|i: int| 0 <= i < p.len() && p[i].0 == k;
        if i != m.len() {
            assert(p[i].0 != p[m.len() as int].0);
        }
        assert(key_index(p, k) == Some(m.len() as int));
    } else {
        if exists|i: int| 0 <= i < m.len() && m[i].0 == k {
            let j = choose|i: int| 0 <= i < m.len() && m[i].0 == k;
            assert(p[j] == m[j]);
            assert(p[j].0 == k);
            let i = choose|i: int| 0 <= i < p.len() && p[i].0 == k;
            if i != j {
                assert(p[i].0 != p[j].0);
            }
            assert(key_index(p, k) == Some(j));
            let i2 = key_index(m, k)->0;
            assert(0 <= i2 < m.len() && m[i2].0 == k);
            if i2 != j {
                assert(p[i2] == m[i2]);
                assert(p[i2].0 != p[j].0);
            }
        } else {
            assert forall|i: int| 0 <= i < p.len() implies p[i].0 != k by {
                if i < m.len() {
                    assert(p[i] == m[i]);
                }
            }
        }
    }
}

/// Extending `base` by `incoming`: the entries of `incoming` win
proof fn lemma_extend_lookup<V>(base: Seq<(Seq<char>, V)>, incoming: Seq<(Seq<char>, V)>, k: Seq<char>)
    requires
        keys_unique(base),
        keys_unique(incoming),
    ensures
        keys_unique(extend_entries(base, incoming)),
        lookup(extend_entries(base, incoming), k) == (match lookup(incoming, k) {
            Some(v) => Some(v),
            None => lookup(base, k),
        }),
    decreases incoming.len(),
{
    if incoming.len() > 0 {
        let d = incoming.drop_last();
        let e = incoming.last();
        assert(keys_unique(d)) by {
            assert forall|i: int, j: int| 0 <= i < d.len() && 0 <= j < d.len() && i != j implies d[i].0 != d[j].0 by {
                assert(d[i] == incoming[i] && d[j] == incoming[j]);
            }
        }
        assert(d.push(e) =~= incoming);
        lemma_extend_lookup(base, d, k);
        lemma_insert_entry(extend_entries(base, d), e.0, e.1);
        lemma_lookup_push(d, e, k);
    }
}

/// The value of `k` among the parents: the first parent that defines it wins
pub open spec fn parents_lookup(flat: Seq<(RefView, ProfileView)>, cur: Seq<ProfileView>, parents: Seq<RefView>, k: Seq<char>) -> Option<SourceView>
    decreases parents.len(),
{
    if parents.len() == 0 {
        None
    } else {
        match (match node_of(flat, parents[0]) {
            Some(p) => lookup(cur[p].variables, k),
            None => None,
        }) {
            Some(v) => Some(v),
            None => parents_lookup(flat, cur, parents.drop_first(), k),
        }
    }
}

/// The side effects the parents contribute, first parent first
pub open spec fn parents_effects(
    flat: Seq<(RefView, ProfileView)>,
    cur: Seq<ProfileView>,
    parents: Seq<RefView>,
    pre: bool,
) -> Seq<SideEffectView>
    decreases parents.len(),
{
    if parents.len() == 0 {
        Seq::empty()
    } else {
        (match node_of(flat, parents[0]) {
            Some(p) => if pre { cur[p].pre_export } else { cur[p].post_export },
            None => Seq::empty(),
        }) + parents_effects(flat, cur, parents.drop_first(), pre)
    }
}

/// Combining parents: a variable's value is that of the first parent that
/// defines it; the side effects are the parents', in parent order
proof fn lemma_combine_effect(
    flat: Seq<(RefView, ProfileView)>,
    cur: Seq<ProfileView>,
    parents: Seq<RefView>,
    k: Seq<char>,
)
    requires
        forall|p: int| 0 <= p < cur.len() ==> keys_unique((#[trigger] cur[p]).variables),
        forall|j: int| 0 <= j < parents.len() ==> (node_of(flat, #[trigger] parents[j]) matches Some(p) ==> 0 <= p < cur.len()),
    ensures
        keys_unique(combine_parents(flat, cur, parents).variables),
        lookup(combine_parents(flat, cur, parents).variables, k) == parents_lookup(flat, cur, parents, k),
        combine_parents(flat, cur, parents).pre_export == parents_effects(flat, cur, parents, true),
        combine_parents(flat, cur, parents).post_export == parents_effects(flat, cur, parents, false),
    decreases parents.len(),
{
    if parents.len() == 0 {
        assert(key_index(empty_profile().variables, k) is None);
    } else {
        let rest = parents.drop_first();
        assert forall|j: int| 0 <= j < rest.len() implies (node_of(flat, #[trigger] rest[j]) matches Some(p) ==> 0 <= p < cur.len()) by {
            assert(rest[j] == parents[j + 1]);
        }
        lemma_combine_effect(flat, cur, rest, k);
        let f = combine_parents(flat, cur, rest);
        assert(node_of(flat, parents[0]) matches Some(p) ==> 0 <= p < cur.len());
        match node_of(flat, parents[0]) {
            Some(p) => {
                assert(keys_unique(cur[p].variables));
                lemma_extend_lookup(cur[p].variables, f.variables, k);
                lemma_extend_lookup(extend_entries(cur[p].variables, f.variables), cur[p].variables, k);
                assert(combine_parents(flat, cur, parents).pre_export =~= parents_effects(flat, cur, parents, true));
                assert(combine_parents(flat, cur, parents).post_export =~= parents_effects(flat, cur, parents, false));
            },
            None => {
                assert(parents_effects(flat, cur, parents, true) =~= parents_effects(flat, cur, rest, true));
                assert(parents_effects(flat, cur, parents, false) =~= parents_effects(flat, cur, rest, false));
            },
        }
    }
}

/// Merging parents into a profile: the profile's own value for a variable
/// wins, else the first (left-most) parent that defines it; the parents'
/// side effects come first, in parent order, then the profile's own; the
/// `extends` list is kept.
pub proof fn lemma_fold_parents_effect(
    flat: Seq<(RefView, ProfileView)>,
    cur: Seq<ProfileView>,
    parents: Seq<RefView>,
    own: ProfileView,
    k: Seq<char>,
)
    requires
        keys_unique(own.variables),
        forall|p: int| 0 <= p < cur.len() ==> keys_unique((#[trigger] cur[p]).variables),
        forall|j: int| 0 <= j < parents.len() ==> (node_of(flat, #[trigger] parents[j]) matches Some(p) ==> 0 <= p < cur.len()),
    ensures
        keys_unique(fold_parents(flat, cur, parents, own).variables),
        lookup(fold_parents(flat, cur, parents, own).variables, k) == (match lookup(own.variables, k) {
            Some(v) => Some(v),
            None => parents_lookup(flat, cur, parents, k),
        }),
        fold_parents(flat, cur, parents, own).pre_export == parents_effects(flat, cur, parents, true) + own.pre_export,
        fold_parents(flat, cur, parents, own).post_export == parents_effects(flat, cur, parents, false) + own.post_export,
        fold_parents(flat, cur, parents, own).extends == own.extends,
{
    if parents.len() > 0 {
        lemma_combine_effect(flat, cur, parents, k);
        lemma_extend_lookup(combine_parents(flat, cur, parents).variables, own.variables, k);
    } else {
        assert(parents_effects(flat, cur, parents, true) + own.pre_export =~= own.pre_export);
        assert(parents_effects(flat, cur, parents, false) + own.post_export =~= own.post_export);
    }
}

/// In a resolution, each profile's variables are its own, then those of its
/// first (left-most) parent that defines them, and so on to its last; its
/// side effects are its parents' (first parent first) followed by its own;
/// and it keeps its `extends` list.
pub proof fn lemma_resolution_effect(flat: Seq<(RefView, ProfileView)>, cur: Seq<ProfileView>, i: int, k: Seq<char>)
    requires
        is_resolution(flat, cur),
        0 <= i < flat.len(),
        keys_unique(flat[i].1.variables),
        forall|p: int| 0 <= p < cur.len() ==> keys_unique((#[trigger] cur[p]).variables),
    ensures
        lookup(cur[i].variables, k) == (match lookup(flat[i].1.variables, k) {
            Some(v) => Some(v),
            None => parents_lookup(flat, cur, parents_of(flat, i), k),
        }),
        cur[i].pre_export == parents_effects(flat, cur, parents_of(flat, i), true) + flat[i].1.pre_export,
        cur[i].post_export == parents_effects(flat, cur, parents_of(flat, i), false) + flat[i].1.post_export,
        cur[i].extends == flat[i].1.extends,
{
    let ps = parents_of(flat, i);
    assert forall|j: int| 0 <= j < ps.len() implies (node_of(flat, #[trigger] ps[j]) matches Some(p) ==> 0 <= p < cur.len()) by {
        lemma_node_of_some(flat, ps[j]);
    }
    lemma_fold_parents_effect(flat, cur, ps, flat[i].1, k);
}


// ---------------------------------------------------------------------------
// Which error resolution reports
// ---------------------------------------------------------------------------

proof fn lemma_no_dups_push(s: Seq<RefView>, x: RefView)
    requires
        no_dups(s),
        !s.contains(x),
    ensures
        no_dups(s.push(x)),
{
    let t = s.push(x);
    assert forall|i: int, j: int| 0 <= i < j < t.len() implies t[i] != t[j] by {
        if j == s.len() {
            assert(t[i] == s[i]);
        } else {
            assert(t[i] == s[i] && t[j] == s[j]);
        }
    }
}

/// A chain from a parent of `x`, with `x` put in front, is a chain from `x`
proof fn lemma_chain_prepend(flat: Seq<(RefView, ProfileView)>, x: RefView, c: Seq<RefView>)
    requires
        node_of(flat, x) is Some,
        chain_from(flat, c, c[0]),
        parents_of(flat, node_of(flat, x)->0).contains(c[0]),
    ensures
        chain_from(flat, seq![x] + c, x),
        (seq![x] + c).last() == c.last(),
{
    let d = seq![x] + c;
    assert forall|j: int| 0 <= j < d.len() - 1 implies parents_of(flat, node_of(flat, #[trigger] d[j])->0).contains(d[j + 1]) by {
        if j > 0 {
            assert(d[j] == c[j - 1] && d[j + 1] == c[j]);
        }
    }
    assert forall|j: int| 0 <= j < d.len() implies node_of(flat, #[trigger] d[j]) is Some by {
        if j > 0 {
            assert(d[j] == c[j - 1]);
        }
    }
}

/// An error local to `x` is a defect met from `x`
#[verifier::spinoff_prover]
#[verifier::rlimit(40)]
proof fn lemma_local_error_unsound(flat: Seq<(RefView, ProfileView)>, path: Seq<RefView>, x: RefView, e: InheritanceError)
    requires
        path.len() > 0,
        path.last() == x,
        local_error(flat, path, x, e),
    ensures
        !sound_from(flat, path, x),
{
    match e {
        InheritanceError::Cycle { path: w } => {
            let v = references_seq_view(w@);
            let n = path.len() as int;
            let c = v.subrange(n - 1, v.len() as int);
            assert(c[0] == v[n - 1]);
            assert(v.take(n)[n - 1] == path[n - 1]);
            assert forall|j: int| 0 <= j < c.len() - 1 implies parents_of(flat, node_of(flat, #[trigger] c[j])->0).contains(c[j + 1]) by {
                assert(c[j] == v[j + n - 1] && c[j + 1] == v[j + n]);
            }
            assert forall|j: int| 0 <= j < c.len() implies node_of(flat, #[trigger] c[j]) is Some by {
                assert(c[j] == v[j + n - 1]);
            }
            assert(chain_from(flat, c, x));
            assert(c.last() == v.last());
            assert(path + c.drop_first() =~= v);
            let m = choose|m: int| 0 <= m < v.len() && parents_of(flat, node_of(flat, v.last())->0).contains(#[trigger] v[m]);
            let ps = parents_of(flat, node_of(flat, c.last())->0);
            let k = choose|k: int| 0 <= k < ps.len() && ps[k] == v[m];
            assert((path + c.drop_first()).contains(ps[k])) by {
                assert((path + c.drop_first())[m] == v[m]);
            }
        },
        InheritanceError::Unknown { reference } => {
            let c = choose|c: Seq<RefView>| #[trigger] chain_from(flat, c, x)
                && parents_of(flat, node_of(flat, c.last())->0).contains(reference@);
            let ps = parents_of(flat, node_of(flat, c.last())->0);
            let k = choose|k: int| 0 <= k < ps.len() && ps[k] == reference@;
            assert(node_of(flat, ps[k]) is None);
        },
        InheritanceError::Unqualified { .. } => {},
    }
}

/// An error found from a parent `p` of `x`, one step further along the path,
/// is an error found from `x`
proof fn lemma_local_error_lift(flat: Seq<(RefView, ProfileView)>, path: Seq<RefView>, x: RefView, p: RefView, e: InheritanceError)
    requires
        node_of(flat, x) is Some,
        parents_of(flat, node_of(flat, x)->0).contains(p),
        local_error(flat, path.push(p), p, e),
    ensures
        local_error(flat, path, x, e),
{
    match e {
        InheritanceError::Cycle { path: w } => {
            let v = references_seq_view(w@);
            assert(v.take(path.len() as int) =~= path.push(p).take(path.len() as int));
            assert(path.push(p).take(path.len() as int) =~= path);
        },
        InheritanceError::Unknown { reference } => {
            let c = choose|c: Seq<RefView>| #[trigger] chain_from(flat, c, p)
                && parents_of(flat, node_of(flat, c.last())->0).contains(reference@);
            lemma_chain_prepend(flat, x, c);
            assert(chain_from(flat, seq![x] + c, x));
        },
        InheritanceError::Unqualified { .. } => {},
    }
}

impl Resolver {
    /// Along a chain from a resolved profile, every profile is resolved and
    /// ranks strictly decrease
    proof fn lemma_chain_done(r: Resolver, path: Seq<RefView>, c: Seq<RefView>, j: int)
        requires
            r.wf(path),
            chain_from(r.flat@, c, c[0]),
            r.is_done(path, node_of(r.flat@, c[0])->0),
            0 <= j < c.len(),
        ensures
            r.is_done(path, node_of(r.flat@, c[j])->0),
            0 <= node_of(r.flat@, c[j])->0 < r.flat@.len(),
            forall|i: int| 0 <= i < j ==> r.rank@[node_of(r.flat@, c[j])->0] < r.rank@[node_of(r.flat@, #[trigger] c[i])->0],
        decreases j,
    {
        reveal(Resolver::wf);
        let flat = r.flat@;
        lemma_node_of_some(flat, c[j]);
        if j > 0 {
            Resolver::lemma_chain_done(r, path, c, j - 1);
            let a = node_of(flat, c[j - 1])->0;
            assert(r.done_ok(path, a));
            assert(parents_of(flat, node_of(flat, c[j - 1])->0).contains(c[j]));
            let k = choose|k: int| 0 <= k < parents_of(flat, a).len() && parents_of(flat, a)[k] == c[j];
            assert(node_of(flat, parents_of(flat, a)[k]) is Some);
        } else {
            lemma_node_of_some(flat, c[0]);
        }
    }

    /// A resolved profile meets no defect along its chains of parents
    proof fn lemma_done_sound(r: Resolver, path: Seq<RefView>, x: RefView)
        requires
            r.wf(path),
            node_of(r.flat@, x) is Some,
            r.is_done(path, node_of(r.flat@, x)->0),
        ensures
            sound_from(r.flat@, path.push(x), x),
    {
        let flat = r.flat@;
        assert forall|c: Seq<RefView>| #[trigger] chain_from(flat, c, x) implies forall|k: int|
            0 <= k < parents_of(flat, node_of(flat, c.last())->0).len() ==> {
                let p = #[trigger] parents_of(flat, node_of(flat, c.last())->0)[k];
                &&& node_of(flat, p) is Some
                &&& !(path.push(x) + c.drop_first()).contains(p)
            } by {
            let n = c.len() - 1;
            Resolver::lemma_chain_done(r, path, c, n);
            let a = node_of(flat, c.last())->0;
            assert(c.last() == c[n]);
            reveal(Resolver::wf);
            assert(r.done_ok(path, a));
            assert forall|k: int| 0 <= k < parents_of(flat, a).len() implies {
                let p = #[trigger] parents_of(flat, a)[k];
                &&& node_of(flat, p) is Some
                &&& !(path.push(x) + c.drop_first()).contains(p)
            } by {
                let p = parents_of(flat, a)[k];
                let b = node_of(flat, p)->0;
                assert(r.is_done(path, b));
                lemma_node_of_some(flat, p);
                let whole = path.push(x) + c.drop_first();
                if whole.contains(p) {
                    let q = choose|q: int| 0 <= q < whole.len() && whole[q] == p;
                    if q < path.len() {
                        assert(whole[q] == path[q]);
                        reveal(on_path);
                        assert(on_path(path, flat[b].0));
                    } else {
                        let i = q - path.len();
                        assert(whole[q] == c[i]);
                        if i < n {
                            Resolver::lemma_chain_done(r, path, c, n);
                            assert(r.rank@[node_of(flat, c[n])->0] < r.rank@[node_of(flat, c[i])->0]);
                        }
                        assert(node_of(flat, c[i]) == node_of(flat, p));
                    }
                }
            }
        }
    }
}

} // verus!
