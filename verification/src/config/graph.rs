//! The profiles of a config seen as one graph: every profile under its
//! absolute reference, with `extends` edges to its parents.

use crate::config::inherit::extend_entries;
use crate::config::inherit::inherit_view;
use crate::config::inherit::keys_unique;
use crate::config::name::RefView;
use crate::config::ApplicationView;
use crate::config::ConfigView;
use crate::config::ProfileView;
use crate::config::SourceView;
use vstd::prelude::*;

verus! {

/// The names of a config's applications and of their profiles, in order
pub open spec fn shape(c: ConfigView) -> Seq<(Seq<char>, Seq<Seq<char>>)> {
    c.map_values(|a: (Seq<char>, ApplicationView)| (a.0, a.1.map_values(|p: (Seq<char>, ProfileView)| p.0)))
}

/// The profiles of a flattened config, without their references
pub open spec fn profile_views(flat: Seq<(RefView, ProfileView)>) -> Seq<ProfileView> {
    flat.map_values(|e: (RefView, ProfileView)| e.1)
}

/// The references of a flattened config
pub open spec fn flat_refs(flat: Seq<(RefView, ProfileView)>) -> Seq<RefView> {
    flat.map_values(|e: (RefView, ProfileView)| e.0)
}

/// The profiles of one application, under their absolute references
pub open spec fn app_entries(application: Seq<char>, app: ApplicationView) -> Seq<(RefView, ProfileView)> {
    app.map_values(|e: (Seq<char>, ProfileView)| (RefView { application: Some(application), profile: e.0 }, e.1))
}

/// All profiles of a config, application by application, each under its
/// absolute reference
pub open spec fn flatten(c: ConfigView) -> Seq<(RefView, ProfileView)>
    decreases c.len(),
{
    if c.len() == 0 {
        Seq::empty()
    } else {
        flatten(c.drop_last()) + app_entries(c.last().0, c.last().1)
    }
}

/// Application names are unique, and so are profile names within each
/// application
pub open spec fn config_keys_unique(c: ConfigView) -> bool {
    &&& keys_unique(c)
    &&& forall|a: int| 0 <= a < c.len() ==> keys_unique(#[trigger] c[a].1)
}

/// No reference occurs twice
pub open spec fn refs_unique(flat: Seq<(RefView, ProfileView)>) -> bool {
    forall|i: int, j: int| 0 <= i < flat.len() && 0 <= j < flat.len() && i != j ==> #[trigger] flat[i].0 != #[trigger] flat[j].0
}

/// The position of the profile with reference `r`, if any
pub open spec fn node_of(flat: Seq<(RefView, ProfileView)>, r: RefView) -> Option<int> {
    if exists|i: int| 0 <= i < flat.len() && flat[i].0 == r {
        Some(choose|i: int| 0 <= i < flat.len() && flat[i].0 == r)
    } else {
        None
    }
}

/// The parents of node `i`
pub open spec fn parents_of(flat: Seq<(RefView, ProfileView)>, i: int) -> Seq<RefView> {
    flat[i].1.extends
}

/// A profile with nothing in it
pub open spec fn empty_profile() -> ProfileView {
    ProfileView { extends: Seq::empty(), variables: Seq::empty(), pre_export: Seq::empty(), post_export: Seq::empty() }
}

/// The entries of `high` with those of `low` added where `high` lacks the
/// key: `high`'s entries first, in their order and with their values, then
/// `low`'s other entries, in theirs
pub open spec fn entries_over(high: Seq<(Seq<char>, SourceView)>, low: Seq<(Seq<char>, SourceView)>) -> Seq<(Seq<char>, SourceView)> {
    extend_entries(extend_entries(high, low), high)
}

/// `high` laid over `low`: `high`'s variables win and come first, and its
/// side effects come first
pub open spec fn overlay_view(low: ProfileView, high: ProfileView) -> ProfileView {
    ProfileView {
        extends: low.extends,
        variables: entries_over(high.variables, low.variables),
        pre_export: high.pre_export + low.pre_export,
        post_export: high.post_export + low.post_export,
    }
}

/// The parents `parents` combined, where `cur[p]` is the (resolved) profile
/// at node `p`: the last parent is laid down first and each earlier one over
/// it, so an earlier parent's value wins over a later one's, the first
/// parent's variables come first (then each later parent's new ones), and
/// the first parent's side effects come first
pub open spec fn combine_parents(flat: Seq<(RefView, ProfileView)>, cur: Seq<ProfileView>, parents: Seq<RefView>) -> ProfileView
    decreases parents.len(),
{
    if parents.len() == 0 {
        empty_profile()
    } else {
        let rest = combine_parents(flat, cur, parents.drop_first());
        match node_of(flat, parents[0]) {
            Some(i) => overlay_view(rest, cur[i]),
            None => rest,
        }
    }
}

/// Merge the parents `parents` into `own`: `own`'s values take precedence
/// over all parents', and an earlier (left-most) parent's over a later one's;
/// the parents' side effects come first, the first parent's first. Without
/// parents, `own` is unchanged.
pub open spec fn fold_parents(flat: Seq<(RefView, ProfileView)>, cur: Seq<ProfileView>, parents: Seq<RefView>, own: ProfileView) -> ProfileView {
    if parents.len() == 0 {
        own
    } else {
        inherit_view(own, combine_parents(flat, cur, parents))
    }
}

/// `cur` assigns every profile its resolved value: its own definition with
/// the resolved values of its parents merged in
pub open spec fn is_resolution(flat: Seq<(RefView, ProfileView)>, cur: Seq<ProfileView>) -> bool {
    &&& cur.len() == flat.len()
    &&& forall|i: int| 0 <= i < flat.len() ==> #[trigger] cur[i] == fold_parents(flat, cur, parents_of(flat, i), flat[i].1)
}

/// Every parent names an existing profile
pub open spec fn all_known(flat: Seq<(RefView, ProfileView)>) -> bool {
    forall|i: int, k: int| 0 <= i < flat.len() && 0 <= k < parents_of(flat, i).len() ==> node_of(flat, #[trigger] parents_of(flat, i)[k]) is Some
}

/// Some parent reference lacks an application name
pub open spec fn has_unqualified(flat: Seq<(RefView, ProfileView)>) -> bool {
    exists|i: int, k: int| 0 <= i < flat.len() && 0 <= k < parents_of(flat, i).len() && (#[trigger] parents_of(flat, i)[k]).application is None
}

/// `rank` strictly decreases along every `extends` edge
pub open spec fn ranked(flat: Seq<(RefView, ProfileView)>, rank: Seq<nat>) -> bool {
    &&& rank.len() == flat.len()
    &&& forall|i: int, k: int| 0 <= i < flat.len() && 0 <= k < parents_of(flat, i).len() ==>
        match node_of(flat, #[trigger] parents_of(flat, i)[k]) {
            Some(p) => rank[p] < rank[i],
            None => true,
        }
}

/// The inheritance graph has no cycle: its nodes can be ranked so that every
/// parent ranks below its child
pub open spec fn acyclic(flat: Seq<(RefView, ProfileView)>) -> bool {
    exists|rank: Seq<nat>| ranked(flat, rank)
}

/// `path` is a chain of profiles, each extending the next, whose last member
/// extends one of the chain's members: a witness of a cycle
pub open spec fn is_cycle(flat: Seq<(RefView, ProfileView)>, path: Seq<RefView>) -> bool {
    &&& path.len() > 0
    &&& forall|j: int| 0 <= j < path.len() ==> node_of(flat, #[trigger] path[j]) is Some
    &&& forall|j: int| 0 <= j < path.len() - 1 ==> parents_of(flat, node_of(flat, #[trigger] path[j])->0).contains(path[j + 1])
    &&& exists|m: int| 0 <= m < path.len() && parents_of(flat, node_of(flat, path.last())->0).contains(#[trigger] path[m])
}

// ---------------------------------------------------------------------------
// Lemmas
// ---------------------------------------------------------------------------

pub proof fn lemma_flatten_step(c: ConfigView, a: int)
    requires
        0 <= a < c.len(),
    ensures
        flatten(c.take(a + 1)) == flatten(c.take(a)) + app_entries(c[a].0, c[a].1),
{
    assert(c.take(a + 1).drop_last() == c.take(a));
    assert(c.take(a + 1).last() == c[a]);
}

pub proof fn lemma_flatten_prefix(c: ConfigView, a: int)
    requires
        0 <= a <= c.len(),
    ensures
        flatten(c.take(a)).len() <= flatten(c).len(),
        flatten(c).take(flatten(c.take(a)).len() as int) == flatten(c.take(a)),
    decreases c.len() - a,
{
    if a == c.len() {
        assert(c.take(a) == c);
    } else {
        lemma_flatten_prefix(c, a + 1);
        lemma_flatten_step(c, a);
        let f = flatten(c.take(a));
        let g = flatten(c.take(a + 1));
        assert(flatten(c).take(f.len() as int) =~= g.take(f.len() as int));
        assert(g.take(f.len() as int) =~= f);
    }
}

/// Every flattened entry comes from some application of the config
pub proof fn lemma_flatten_application(c: ConfigView, k: int)
    requires
        0 <= k < flatten(c).len(),
    ensures
        exists|a: int| 0 <= a < c.len() && flatten(c)[k].0.application == Some(#[trigger] c[a].0),
    decreases c.len(),
{
    let d = c.drop_last();
    let f = flatten(d);
    if k < f.len() {
        lemma_flatten_application(d, k);
        let a = choose|a: int| 0 <= a < d.len() && f[k].0.application == Some(#[trigger] d[a].0);
        assert(c[a] == d[a]);
    } else {
        assert(c[c.len() - 1] == c.last());
    }
}

pub proof fn lemma_flatten_refs_unique(c: ConfigView)
    requires
        config_keys_unique(c),
    ensures
        refs_unique(flatten(c)),
    decreases c.len(),
{
    if c.len() > 0 {
        let d = c.drop_last();
        assert(config_keys_unique(d)) by {
            assert forall|a: int| 0 <= a < d.len() implies keys_unique(#[trigger] d[a].1) by {
                assert(d[a] == c[a]);
            }
        }
        lemma_flatten_refs_unique(d);
        let f = flatten(d);
        let last = c.last();
        let e = app_entries(last.0, last.1);
        let flat = flatten(c);
        assert(flat == f + e);
        assert(keys_unique(last.1)) by {
            assert(c[c.len() - 1] == last);
        }
        assert forall|i: int, j: int| 0 <= i < flat.len() && 0 <= j < flat.len() && i != j implies #[trigger] flat[i].0
            != #[trigger] flat[j].0 by {
            if i < f.len() && j < f.len() {
                assert(flat[i] == f[i] && flat[j] == f[j]);
            } else if i >= f.len() && j >= f.len() {
                assert(flat[i] == e[i - f.len()] && flat[j] == e[j - f.len()]);
            } else {
                let (x, y) = if i < f.len() { (i, j) } else { (j, i) };
                lemma_flatten_application(d, x);
                let a = choose|a: int| 0 <= a < d.len() && f[x].0.application == Some(#[trigger] d[a].0);
                assert(d[a] == c[a]);
                assert(c[c.len() - 1] == last);
                assert(c[a].0 != c[c.len() - 1].0);
                assert(flat[x] == f[x]);
                assert(flat[y] == e[y - f.len()]);
            }
        }
    }
}

pub proof fn lemma_node_of(flat: Seq<(RefView, ProfileView)>, i: int)
    requires
        refs_unique(flat),
        0 <= i < flat.len(),
    ensures
        node_of(flat, flat[i].0) == Some(i),
{
    let j = choose|j: int| 0 <= j < flat.len() && flat[j].0 == flat[i].0;
    if j != i {
        assert(flat[j].0 != flat[i].0);
    }
}

pub proof fn lemma_node_of_some(flat: Seq<(RefView, ProfileView)>, r: RefView)
    ensures
        node_of(flat, r) matches Some(i) ==> 0 <= i < flat.len() && flat[i].0 == r,
{
}

/// Ranks strictly decrease along a chain
proof fn lemma_chain_rank(flat: Seq<(RefView, ProfileView)>, path: Seq<RefView>, rank: Seq<nat>, m: int, j: int)
    requires
        is_cycle(flat, path),
        ranked(flat, rank),
        0 <= m <= j < path.len(),
    ensures
        rank[node_of(flat, path[j])->0] <= rank[node_of(flat, path[m])->0],
    decreases j - m,
{
    if j > m {
        lemma_chain_rank(flat, path, rank, m, j - 1);
        let i = node_of(flat, path[j - 1])->0;
        assert(node_of(flat, path[j - 1]) is Some);
        assert(parents_of(flat, i).contains(path[j]));
        let k = choose|k: int| 0 <= k < parents_of(flat, i).len() && parents_of(flat, i)[k] == path[j];
        assert(node_of(flat, path[j]) is Some);
        assert(node_of(flat, parents_of(flat, i)[k]) is Some);
    }
}

/// A graph with a cycle witness cannot be ranked
pub proof fn lemma_cycle_not_ranked(flat: Seq<(RefView, ProfileView)>, path: Seq<RefView>, rank: Seq<nat>)
    requires
        is_cycle(flat, path),
    ensures
        !ranked(flat, rank),
{
    if ranked(flat, rank) {
        let n = path.len();
        let m = choose|m: int| 0 <= m < n && parents_of(flat, node_of(flat, path.last())->0).contains(#[trigger] path[m]);
        assert(node_of(flat, path[n - 1]) is Some);
        assert(path.last() == path[n - 1]);
        let last = node_of(flat, path[n - 1])->0;
        let k = choose|k: int| 0 <= k < parents_of(flat, last).len() && parents_of(flat, last)[k] == path[m];
        assert(node_of(flat, path[m]) is Some);
        assert(node_of(flat, parents_of(flat, last)[k]) is Some);
        lemma_chain_rank(flat, path, rank, m, n - 1);
        assert(false);
    }
}

/// A graph with a cycle witness is not acyclic
pub proof fn lemma_cycle_not_acyclic(flat: Seq<(RefView, ProfileView)>, path: Seq<RefView>)
    requires
        is_cycle(flat, path),
    ensures
        !acyclic(flat),
{
    if acyclic(flat) {
        let rank = choose|rank: Seq<nat>| ranked(flat, rank);
        lemma_cycle_not_ranked(flat, path, rank);
    }
}

/// Combining parents only reads the resolved values at the parents'
/// positions
pub proof fn lemma_combine_frame(flat: Seq<(RefView, ProfileView)>, c1: Seq<ProfileView>, c2: Seq<ProfileView>, ps: Seq<RefView>)
    requires
        forall|k: int| 0 <= k < ps.len() ==> match node_of(flat, #[trigger] ps[k]) {
            Some(i) => c1[i] == c2[i],
            None => true,
        },
    ensures
        combine_parents(flat, c1, ps) == combine_parents(flat, c2, ps),
    decreases ps.len(),
{
    if ps.len() > 0 {
        assert forall|k: int| 0 <= k < ps.drop_first().len() implies match node_of(flat, #[trigger] ps.drop_first()[k]) {
            Some(i) => c1[i] == c2[i],
            None => true,
        } by {
            assert(ps.drop_first()[k] == ps[k + 1]);
        }
        lemma_combine_frame(flat, c1, c2, ps.drop_first());
        assert(ps[0] == ps[0]);
    }
}

/// Merging parents only reads the resolved values at the parents' positions
pub proof fn lemma_fold_frame(flat: Seq<(RefView, ProfileView)>, c1: Seq<ProfileView>, c2: Seq<ProfileView>, ps: Seq<RefView>, own: ProfileView)
    requires
        forall|k: int| 0 <= k < ps.len() ==> match node_of(flat, #[trigger] ps[k]) {
            Some(i) => c1[i] == c2[i],
            None => true,
        },
    ensures
        fold_parents(flat, c1, ps, own) == fold_parents(flat, c2, ps, own),
{
    lemma_combine_frame(flat, c1, c2, ps);
}


proof fn lemma_resolution_unique_at(flat: Seq<(RefView, ProfileView)>, c1: Seq<ProfileView>, c2: Seq<ProfileView>, rank: Seq<nat>, i: int)
    requires
        ranked(flat, rank),
        is_resolution(flat, c1),
        is_resolution(flat, c2),
        0 <= i < flat.len(),
    ensures
        c1[i] == c2[i],
    decreases rank[i],
{
    let ps = parents_of(flat, i);
    assert forall|k: int| 0 <= k < ps.len() implies match node_of(flat, #[trigger] ps[k]) {
        Some(p) => c1[p] == c2[p],
        None => true,
    } by {
        lemma_node_of_some(flat, ps[k]);
        if let Some(p) = node_of(flat, ps[k]) {
            lemma_resolution_unique_at(flat, c1, c2, rank, p);
        }
    }
    lemma_fold_frame(flat, c1, c2, ps, flat[i].1);
}

/// An acyclic inheritance graph has exactly one resolution: resolving
/// inheritance is deterministic.
pub proof fn lemma_resolution_unique(flat: Seq<(RefView, ProfileView)>, c1: Seq<ProfileView>, c2: Seq<ProfileView>)
    requires
        acyclic(flat),
        is_resolution(flat, c1),
        is_resolution(flat, c2),
    ensures
        c1 == c2,
{
    let rank = choose|rank: Seq<nat>| ranked(flat, rank);
    assert forall|i: int| 0 <= i < c1.len() implies c1[i] == c2[i] by {
        lemma_resolution_unique_at(flat, c1, c2, rank, i);
    }
    assert(c1 =~= c2);
}

} // verus!
