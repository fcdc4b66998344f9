//! Merging configs loaded from several files. Merging goes down to the
//! profile level only: a profile defined in both configs keeps the
//! definition it already had.

use crate::config::inherit::key_index;
use crate::config::inherit::keys_unique;
use crate::config::inherit::lookup;
use crate::config::inherit::lemma_lookup_push;
use crate::config::graph::config_keys_unique;
use crate::config::Application;
use crate::config::ApplicationView;
use crate::config::Config;
use crate::config::ConfigView;
use crate::config::ProfileView;
use crate::ordered::application_entries;
use crate::ordered::applications_get_index;
use crate::ordered::applications_get_index_of;
use crate::ordered::applications_insert;
use crate::ordered::applications_len;
use crate::ordered::applications_new;
use crate::ordered::applications_view;
use crate::ordered::profile_entries;
use crate::ordered::profiles_get_index;
use crate::ordered::profiles_get_index_of;
use crate::ordered::profiles_insert;
use crate::ordered::profiles_len;
use crate::ordered::profiles_new;
use crate::ordered::profiles_view;
use crate::config::Profile;
use crate::config::name::Name;
use crate::config::name::ProfileReference;
use crate::config::name::RefView;
use crate::config::inherit::references_seq_view;
use indexmap::IndexMap;
use vstd::prelude::*;

verus! {

/// The entries of `extra` whose keys `base` lacks, in order
pub open spec fn entries_absent<V>(base: Seq<(Seq<char>, V)>, extra: Seq<(Seq<char>, V)>) -> Seq<(Seq<char>, V)>
    decreases extra.len(),
{
    if extra.len() == 0 {
        Seq::empty()
    } else {
        let r = entries_absent(base, extra.drop_last());
        if key_index(base, extra.last().0) is Some {
            r
        } else {
            r.push(extra.last())
        }
    }
}

/// Profiles of `b` are added to those of `a` where `a` lacks them
pub open spec fn merge_profiles_view(a: ApplicationView, b: ApplicationView) -> ApplicationView {
    a + entries_absent(a, b)
}

/// Applications of both configs have their profiles merged; applications
/// only `b` has are added after those of `a`
pub open spec fn merge_view(a: ConfigView, b: ConfigView) -> ConfigView {
    a.map_values(
        |e: (Seq<char>, ApplicationView)|
            (
                e.0,
                match key_index(b, e.0) {
                    Some(j) => merge_profiles_view(e.1, b[j].1),
                    None => e.1,
                },
            ),
    ) + entries_absent(a, b)
}

/// Merge the profiles of `b` into those of `a`
fn merge_profiles(a: &IndexMap<Name, Profile>, b: &IndexMap<Name, Profile>) -> (r: IndexMap<Name, Profile>)
    ensures
        profiles_view(r) == merge_profiles_view(profiles_view(*a), profiles_view(*b)),
{
    let ghost av = profiles_view(*a);
    let ghost bv = profiles_view(*b);
    let mut r = profiles_new();
    let na = profiles_len(a);
    let mut i: usize = 0;
    while i < na
        invariant
            na == av.len(),
            av == profiles_view(*a),
            i <= na,
            profiles_view(r) == av.take(i as int),
        decreases na - i,
    {
        let (k, v) = profiles_get_index(a, i).unwrap();
        let ghost before = profiles_view(r);
        assert(before.len() == i);
        assert(profile_entries(r).len() == i);
        assert forall|j: int| 0 <= j < profile_entries(r).len() implies #[trigger] profile_entries(r)[j].0@ != k@ by {
            assert(before[j] == av.take(i as int)[j]);
            assert(before[j].0 == profile_entries(r)[j].0@);
            assert(profile_entries(*a)[j].0@ != k@);
        }
        profiles_insert(&mut r, k.clone(), v.copy());
        assert(av.take(i + 1) =~= av.take(i as int).push(av[i as int]));
        assert(profiles_view(r) =~= before.push((k@, v@)));
        i = i + 1;
    }
    assert(av.take(na as int) =~= av);
    let nb = profiles_len(b);
    let mut j: usize = 0;
    assert(entries_absent(av, bv.take(0)) =~= Seq::<(Seq<char>, ProfileView)>::empty());
    assert(av + entries_absent(av, bv.take(0)) =~= av);
    while j < nb
        invariant
            nb == bv.len(),
            av == profiles_view(*a),
            bv == profiles_view(*b),
            j <= nb,
            profiles_view(r) == av + entries_absent(av, bv.take(j as int)),
        decreases nb - j,
    {
        let (k, v) = profiles_get_index(b, j).unwrap();
        assert(bv[j as int] == (k@, v@));
        proof {
            assert(bv.take(j + 1).drop_last() =~= bv.take(j as int));
            assert(bv.take(j + 1).last() == bv[j as int]);
        }
        match profiles_get_index_of(a, k) {
            Some(ai) => {
                assert(av[ai as int].0 == k@);
                assert(key_index(av, k@) is Some);
            },
            None => {
                assert forall|x: int| 0 <= x < av.len() implies av[x].0 != k@ by {
                    assert(profile_entries(*a)[x].0@ != k@);
                }
                assert(key_index(av, k@) is None);
                let ghost before = profiles_view(r);
                assert(profile_entries(r).len() == before.len());
                assert forall|x: int| 0 <= x < profile_entries(r).len() implies #[trigger] profile_entries(r)[x].0@ != k@ by {
                    assert(before[x].0 == profile_entries(r)[x].0@);
                    if x < av.len() {
                        assert(before[x] == av[x]);
                    } else {
                        let e = entries_absent(av, bv.take(j as int));
                        assert(before[x] == e[x - av.len()]);
                        lemma_entries_absent_from(av, bv.take(j as int), x - av.len());
                        let y = choose|y: int| 0 <= y < bv.take(j as int).len() && e[x - av.len()] == #[trigger] bv.take(j as int)[y];
                        assert(bv[y] == bv.take(j as int)[y]);
                        assert(profile_entries(*b)[y].0@ != k@);
                    }
                }
                profiles_insert(&mut r, k.clone(), v.copy());
                assert(profiles_view(r) =~= before.push((k@, v@)));
            },
        }
        j = j + 1;
    }
    assert(bv.take(nb as int) =~= bv);
    r
}

/// Every entry that `entries_absent` keeps comes from `extra`
proof fn lemma_entries_absent_from<V>(base: Seq<(Seq<char>, V)>, extra: Seq<(Seq<char>, V)>, x: int)
    requires
        0 <= x < entries_absent(base, extra).len(),
    ensures
        exists|y: int| 0 <= y < extra.len() && entries_absent(base, extra)[x] == #[trigger] extra[y],
    decreases extra.len(),
{
    let r = entries_absent(base, extra.drop_last());
    if x < r.len() {
        lemma_entries_absent_from(base, extra.drop_last(), x);
        let y = choose|y: int| 0 <= y < extra.drop_last().len() && r[x] == #[trigger] extra.drop_last()[y];
        assert(extra[y] == extra.drop_last()[y]);
    } else {
        assert(extra[extra.len() - 1] == extra.last());
    }
}

impl Config {
    /// Merge another config into this one, down to the profile level: an
    /// application of both gets the profiles of `other` that it lacks, an
    /// application only `other` has is added, and a profile defined in both
    /// keeps this config's definition.
    pub fn merge(&mut self, other: Config)
        ensures
            final(self)@ == merge_view(old(self)@, other@),
    {
        let ghost av = self@;
        let ghost bv = other@;
        let mut r = applications_new();
        let na = applications_len(&self.applications);
        let mut i: usize = 0;
        assert(applications_view(r) =~= merge_view(av, bv).take(0));
        while i < na
            invariant
                na == av.len(),
                av == self@,
                bv == other@,
                i <= na,
                applications_view(r) == merge_view(av, bv).take(i as int),
            decreases na - i,
        {
            let (k, app) = applications_get_index(&self.applications, i).unwrap();
            assert(av[i as int] == (k@, app@));
            let merged = match applications_get_index_of(&other.applications, k) {
                Some(bi) => {
                    let (_, bapp) = applications_get_index(&other.applications, bi).unwrap();
                    assert(bv[bi as int] == (k@, bapp@));
                    assert(key_index(bv, k@) == Some(bi as int)) by {
                        let c = choose|x: int| 0 <= x < bv.len() && bv[x].0 == k@;
                        if c != bi {
                            assert(application_entries(other.applications)[c].0@ != k@);
                        }
                    }
                    Application { profiles: merge_profiles(&app.profiles, &bapp.profiles) }
                },
                None => {
                    assert forall|x: int| 0 <= x < bv.len() implies bv[x].0 != k@ by {
                        assert(application_entries(other.applications)[x].0@ != k@);
                    }
                    app.copy()
                },
            };
            assert(merged@ == merge_view(av, bv)[i as int].1);
            let ghost before = applications_view(r);
            assert(before.len() == i);
            assert(application_entries(r).len() == i);
            assert forall|j: int| 0 <= j < application_entries(r).len() implies #[trigger] application_entries(r)[j].0@ != k@ by {
                assert(before[j] == merge_view(av, bv).take(i as int)[j]);
                assert(before[j].0 == application_entries(r)[j].0@);
                assert(merge_view(av, bv)[j].0 == av[j].0);
                assert(application_entries(self.applications)[j].0@ != k@);
            }
            applications_insert(&mut r, k.clone(), merged);
            assert(merge_view(av, bv).take(i + 1) =~= merge_view(av, bv).take(i as int).push(merge_view(av, bv)[i as int]));
            assert(applications_view(r) =~= before.push((k@, merged@)));
            i = i + 1;
        }
        let nb = applications_len(&other.applications);
        let mut j: usize = 0;
        let ghost head = merge_view(av, bv).take(na as int);
        assert(head + entries_absent(av, bv.take(0)) =~= head);
        while j < nb
            invariant
                nb == bv.len(),
                na == av.len(),
                av == self@,
                bv == other@,
                head == merge_view(av, bv).take(na as int),
                head.len() == na,
                forall|x: int| 0 <= x < na ==> (#[trigger] head[x]).0 == av[x].0,
                j <= nb,
                applications_view(r) == head + entries_absent(av, bv.take(j as int)),
            decreases nb - j,
        {
            let (k, bapp) = applications_get_index(&other.applications, j).unwrap();
            assert(bv[j as int] == (k@, bapp@));
            proof {
                assert(bv.take(j + 1).drop_last() =~= bv.take(j as int));
                assert(bv.take(j + 1).last() == bv[j as int]);
            }
            match applications_get_index_of(&self.applications, k) {
                Some(ai) => {
                    assert(av[ai as int].0 == k@);
                    assert(key_index(av, k@) is Some);
                },
                None => {
                    assert forall|x: int| 0 <= x < av.len() implies av[x].0 != k@ by {
                        assert(application_entries(self.applications)[x].0@ != k@);
                    }
                    assert(key_index(av, k@) is None);
                    let ghost before = applications_view(r);
                    assert(application_entries(r).len() == before.len());
                    assert forall|x: int| 0 <= x < application_entries(r).len() implies #[trigger] application_entries(r)[x].0@ != k@ by {
                        assert(before[x].0 == application_entries(r)[x].0@);
                        if x < na {
                            assert(before[x] == head[x]);
                        } else {
                            let e = entries_absent(av, bv.take(j as int));
                            assert(before[x] == e[x - na]);
                            lemma_entries_absent_from(av, bv.take(j as int), x - na);
                            let y = choose|y: int| 0 <= y < bv.take(j as int).len() && e[x - na] == #[trigger] bv.take(j as int)[y];
                            assert(bv[y] == bv.take(j as int)[y]);
                            assert(application_entries(other.applications)[y].0@ != k@);
                        }
                    }
                    applications_insert(&mut r, k.clone(), bapp.copy());
                    assert(applications_view(r) =~= before.push((k@, bapp@)));
                },
            }
            j = j + 1;
        }
        assert(bv.take(nb as int) =~= bv);
        assert(merge_view(av, bv) =~= head + entries_absent(av, bv));
        *self = Config { applications: r };
    }
}


/// Adding the entries of `b` that `a` lacks: the keys stay unique, and a key
/// `a` lacks is found with the value `b` has for it
proof fn lemma_absent_lookup<V>(a: Seq<(Seq<char>, V)>, b: Seq<(Seq<char>, V)>, k: Seq<char>)
    requires
        keys_unique(a),
        keys_unique(b),
        key_index(a, k) is None,
    ensures
        keys_unique(a + entries_absent(a, b)),
        lookup(a + entries_absent(a, b), k) == lookup(b, k),
    decreases b.len(),
{
    if b.len() == 0 {
        assert(a + entries_absent(a, b) =~= a);
        assert forall|i: int| !(0 <= i < b.len() && b[i].0 == k) by {}
    } else {
        let d = b.drop_last();
        let e = b.last();
        assert(keys_unique(d)) by {
            assert forall|i: int, j: int| 0 <= i < d.len() && 0 <= j < d.len() && i != j implies d[i].0 != d[j].0 by {
                assert(d[i] == b[i] && d[j] == b[j]);
            }
        }
        lemma_absent_lookup(a, d, k);
        assert(b =~= d.push(e));
        lemma_lookup_push(d, e, k);
        let md = a + entries_absent(a, d);
        if key_index(a, e.0) is Some {
            assert(a + entries_absent(a, b) == md);
            assert(e.0 != k);
        } else {
            assert(a + entries_absent(a, b) =~= md.push(e));
            assert forall|x: int| 0 <= x < md.len() implies md[x].0 != e.0 by {
                if x < a.len() {
                    assert(md[x] == a[x]);
                    if a[x].0 == e.0 {
                        assert(exists|i: int| 0 <= i < a.len() && a[i].0 == e.0);
                    }
                } else {
                    let ed = entries_absent(a, d);
                    assert(md[x] == ed[x - a.len()]);
                    lemma_entries_absent_from(a, d, x - a.len());
                    let y = choose|y: int| 0 <= y < d.len() && ed[x - a.len()] == #[trigger] d[y];
                    assert(b[y] == d[y]);
                    assert(b[b.len() - 1] == e);
                }
            }
            assert(keys_unique(md.push(e))) by {
                assert forall|i: int, j: int| 0 <= i < md.push(e).len() && 0 <= j < md.push(e).len() && i != j
                    implies md.push(e)[i].0 != md.push(e)[j].0 by {
                    if i < md.len() && j < md.len() {
                        assert(md.push(e)[i] == md[i] && md.push(e)[j] == md[j]);
                    } else if i < md.len() {
                        assert(md.push(e)[i] == md[i]);
                    } else if j < md.len() {
                        assert(md.push(e)[j] == md[j]);
                    }
                }
            }
            lemma_lookup_push(md, e, k);
        }
    }
}

/// Merging keeps a profile that only `other` defines, in an application both
/// configs define, exactly as `other` defines it: its `extends` list,
/// variables and side effects
pub proof fn lemma_merge_adds_missing_profiles(a: ConfigView, b: ConfigView, i: int, j: int, name: Seq<char>)
    requires
        config_keys_unique(a),
        config_keys_unique(b),
        0 <= i < a.len(),
        0 <= j < b.len(),
        a[i].0 == b[j].0,
        lookup(a[i].1, name) is None,
    ensures
        merge_view(a, b)[i].0 == a[i].0,
        lookup(merge_view(a, b)[i].1, name) == lookup(b[j].1, name),
{
    assert(key_index(b, a[i].0) == Some(j)) by {
        let c = choose|x: int| 0 <= x < b.len() && b[x].0 == a[i].0;
        if c != j {
            assert(b[c].0 != b[j].0);
        }
    }
    assert(merge_view(a, b)[i] == (a[i].0, merge_profiles_view(a[i].1, b[j].1)));
    assert(keys_unique(a[i].1));
    assert(keys_unique(b[j].1));
    lemma_absent_lookup(a[i].1, b[j].1, name);
}

// ---------------------------------------------------------------------------
// Profiles defined twice
// ---------------------------------------------------------------------------

/// The profiles of `b`, the application `application` of one config, that
/// `a`, the same application of another config, also defines, in `b`'s order
pub open spec fn app_duplicates(application: Seq<char>, a: ApplicationView, b: ApplicationView) -> Seq<RefView>
    decreases b.len(),
{
    if b.len() == 0 {
        Seq::empty()
    } else {
        let r = app_duplicates(application, a, b.drop_last());
        if key_index(a, b.last().0) is Some {
            r.push(RefView { application: Some(application), profile: b.last().0 })
        } else {
            r
        }
    }
}

/// The profiles of `b` that `a` also defines, in `b`'s order: merging `b`
/// into `a` does not use their definitions in `b`
pub open spec fn duplicates_view(a: ConfigView, b: ConfigView) -> Seq<RefView>
    decreases b.len(),
{
    if b.len() == 0 {
        Seq::empty()
    } else {
        duplicates_view(a, b.drop_last()) + match key_index(a, b.last().0) {
            Some(i) => app_duplicates(b.last().0, a[i].1, b.last().1),
            None => Seq::empty(),
        }
    }
}

impl Config {
    /// The profiles that `other` defines and this config defines too, in
    /// `other`'s order: merging `other` into this config does not use their
    /// definitions in `other`
    pub fn duplicates(&self, other: &Config) -> (r: Vec<ProfileReference>)
        ensures
            references_seq_view(r@) == duplicates_view(self@, other@),
    {
        let ghost av = self@;
        let ghost bv = other@;
        let mut r: Vec<ProfileReference> = Vec::new();
        let nb = applications_len(&other.applications);
        let mut j: usize = 0;
        assert(references_seq_view(r@) =~= duplicates_view(av, bv.take(0)));
        while j < nb
            invariant
                nb == bv.len(),
                av == self@,
                bv == other@,
                j <= nb,
                references_seq_view(r@) == duplicates_view(av, bv.take(j as int)),
            decreases nb - j,
        {
            let (k, bapp) = applications_get_index(&other.applications, j).unwrap();
            assert(bv[j as int] == (k@, bapp@));
            proof {
                assert(bv.take(j + 1).drop_last() =~= bv.take(j as int));
                assert(bv.take(j + 1).last() == bv[j as int]);
            }
            let ghost before = references_seq_view(r@);
            match applications_get_index_of(&self.applications, k) {
                Some(ai) => {
                    let (_, app) = applications_get_index(&self.applications, ai).unwrap();
                    assert(av[ai as int] == (k@, app@));
                    assert(key_index(av, k@) == Some(ai as int)) by {
                        let c = choose|x: int| 0 <= x < av.len() && av[x].0 == k@;
                        if c != ai {
                            assert(application_entries(self.applications)[c].0@ != k@);
                        }
                    }
                    let ghost pa = app@;
                    let ghost pb = bapp@;
                    let np = profiles_len(&bapp.profiles);
                    let mut p: usize = 0;
                    assert(before + app_duplicates(k@, pa, pb.take(0)) =~= before);
                    while p < np
                        invariant
                            np == pb.len(),
                            pa == app@,
                            pb == bapp@,
                            p <= np,
                            references_seq_view(r@) == before + app_duplicates(k@, pa, pb.take(p as int)),
                        decreases np - p,
                    {
                        let (pk, _) = profiles_get_index(&bapp.profiles, p).unwrap();
                        assert(pb[p as int].0 == pk@);
                        proof {
                            assert(pb.take(p + 1).drop_last() =~= pb.take(p as int));
                            assert(pb.take(p + 1).last() == pb[p as int]);
                        }
                        match profiles_get_index_of(&app.profiles, pk) {
                            Some(qi) => {
                                assert(pa[qi as int].0 == pk@);
                                assert(key_index(pa, pk@) is Some);
                                let ghost mid = references_seq_view(r@);
                                let reference = ProfileReference::new(Some(k.clone()), pk.clone());
                                r.push(reference);
                                assert(references_seq_view(r@) =~= mid.push(reference@));
                                assert(before + app_duplicates(k@, pa, pb.take(p + 1)) =~= mid.push(reference@));
                            },
                            None => {
                                assert forall|x: int| 0 <= x < pa.len() implies pa[x].0 != pk@ by {
                                    assert(profile_entries(app.profiles)[x].0@ != pk@);
                                }
                                assert(key_index(pa, pk@) is None);
                            },
                        }
                        p = p + 1;
                    }
                    assert(pb.take(np as int) =~= pb);
                },
                None => {
                    assert forall|x: int| 0 <= x < av.len() implies av[x].0 != k@ by {
                        assert(application_entries(self.applications)[x].0@ != k@);
                    }
                    assert(key_index(av, k@) is None);
                    assert(before + Seq::<RefView>::empty() =~= before);
                },
            }
            j = j + 1;
        }
        assert(bv.take(nb as int) =~= bv);
        r
    }
}

// ---------------------------------------------------------------------------
// Cascading configs
// ---------------------------------------------------------------------------

pub open spec fn configs_view(v: Seq<Config>) -> Seq<ConfigView> {
    v.map_values(|c: Config| c@)
}

/// The configs of a directory hierarchy, listed top to bottom, merged so that
/// a lower config takes precedence over the configs above it: the bottom one
/// first, then each one above merged into the result
pub open spec fn cascade_view(configs: Seq<ConfigView>) -> ConfigView
    decreases configs.len(),
{
    if configs.len() == 0 {
        Seq::empty()
    } else {
        merge_view(cascade_view(configs.drop_first()), configs[0])
    }
}

/// Merge the configs found in a directory hierarchy, listed top to bottom;
/// lower configs take precedence. Beside the merged config, for each config
/// the profiles whose definitions in it are not used, because a lower config
/// defines them too.
pub fn cascade(configs: Vec<Config>) -> (r: (Config, Vec<Vec<ProfileReference>>))
    ensures
        r.0@ == cascade_view(configs_view(configs@)),
        r.1@.len() == configs@.len(),
        forall|i: int| 0 <= i < configs@.len() ==> references_seq_view((#[trigger] r.1@[i])@)
            == duplicates_view(cascade_view(configs_view(configs@).skip(i + 1)), configs@[i]@),
{
    let ghost all = configs_view(configs@);
    let ghost originals = configs@;
    let n = configs.len();
    let mut unused: Vec<Vec<ProfileReference>> = Vec::new();
    let mut x: usize = 0;
    while x < n
        invariant
            x <= n,
            unused@.len() == x,
        decreases n - x,
    {
        unused.push(Vec::new());
        x = x + 1;
    }
    let mut configs = configs;
    let mut result = Config { applications: applications_new() };
    assert(result@ =~= Seq::<(Seq<char>, ApplicationView)>::empty());
    assert(all.skip(all.len() as int) =~= Seq::<ConfigView>::empty());
    while configs.len() > 0
        invariant
            n == all.len(),
            originals.len() == n,
            all == configs_view(originals),
            configs@.len() <= all.len(),
            configs_view(configs@) == all.take(configs@.len() as int),
            result@ == cascade_view(all.skip(configs@.len() as int)),
            unused@.len() == n,
            forall|i: int| configs@.len() <= i < n ==> references_seq_view((#[trigger] unused@[i])@)
                == duplicates_view(cascade_view(all.skip(i + 1)), originals[i]@),
        decreases configs@.len(),
    {
        let k = configs.len() - 1;
        let ghost before = configs_view(configs@);
        let next = configs.pop().unwrap();
        assert(next@ == all[k as int]) by {
            assert(before[k as int] == all.take(k + 1)[k as int]);
        }
        assert(all[k as int] == originals[k as int]@);
        proof {
            assert(all.skip(k as int).drop_first() =~= all.skip(k + 1));
            assert(all.skip(k as int)[0] == all[k as int]);
            assert(configs_view(configs@) =~= all.take(k as int));
        }
        let dups = result.duplicates(&next);
        unused.set(k, dups);
        result.merge(next);
    }
    assert(all.skip(0) =~= all);
    (result, unused)
}

/// Merging never changes what a config already has: each of its
/// applications keeps its name and position, and each of their profiles its
/// name, definition and position
pub proof fn lemma_merge_keeps_own(a: ConfigView, b: ConfigView, i: int, p: int)
    requires
        0 <= i < a.len(),
        0 <= p < a[i].1.len(),
    ensures
        merge_view(a, b)[i].0 == a[i].0,
        merge_view(a, b)[i].1[p] == a[i].1[p],
{
}

proof fn lemma_entries_absent_empty<V>(b: Seq<(Seq<char>, V)>)
    ensures
        entries_absent(Seq::<(Seq<char>, V)>::empty(), b) == b,
    decreases b.len(),
{
    if b.len() > 0 {
        lemma_entries_absent_empty(b.drop_last());
        assert(b.drop_last().push(b.last()) =~= b);
    }
}

/// Lower configs take precedence: every profile of the bottom config is in
/// the cascade, under its application, with its definition
pub proof fn lemma_cascade_bottom_wins(configs: Seq<ConfigView>, i: int, p: int)
    requires
        configs.len() > 0,
        0 <= i < configs.last().len(),
        0 <= p < configs.last()[i].1.len(),
    ensures
        exists|i2: int, p2: int|
            0 <= i2 < cascade_view(configs).len() && 0 <= p2 < cascade_view(configs)[i2].1.len()
                && #[trigger] cascade_view(configs)[i2].0 == configs.last()[i].0
                && #[trigger] cascade_view(configs)[i2].1[p2] == configs.last()[i].1[p],
    decreases configs.len(),
{
    let c = cascade_view(configs);
    if configs.len() == 1 {
        let empty = Seq::<(Seq<char>, ApplicationView)>::empty();
        assert(configs.drop_first() =~= Seq::<ConfigView>::empty());
        lemma_entries_absent_empty(configs[0]);
        assert(cascade_view(configs.drop_first()) == empty);
        assert(c == merge_view(empty, configs[0]));
        assert(merge_view(empty, configs[0]) =~= entries_absent(empty, configs[0]));
        assert(c =~= configs[0]);
        assert(configs.last() == configs[0]);
        assert(c[i].0 == configs.last()[i].0 && c[i].1[p] == configs.last()[i].1[p]);
    } else {
        let rest = configs.drop_first();
        assert(rest.last() == configs.last());
        lemma_cascade_bottom_wins(rest, i, p);
        let r = cascade_view(rest);
        let (i2, p2) = choose|i2: int, p2: int|
            0 <= i2 < r.len() && 0 <= p2 < r[i2].1.len() && #[trigger] r[i2].0 == configs.last()[i].0
                && #[trigger] r[i2].1[p2] == configs.last()[i].1[p];
        lemma_merge_keeps_own(r, configs[0], i2, p2);
        assert(c == merge_view(r, configs[0]));
        assert(c[i2].1.len() >= r[i2].1.len()) by {
            match key_index(configs[0], r[i2].0) {
                Some(j) => {
                    assert(c[i2].1 == merge_profiles_view(r[i2].1, configs[0][j].1));
                },
                None => {},
            }
        }
        assert(c[i2].0 == configs.last()[i].0 && c[i2].1[p2] == configs.last()[i].1[p]);
    }
}

} // verus!
