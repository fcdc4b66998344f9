//! Shell completion candidates for application and profile names.

use crate::config::graph::app_entries;
use crate::config::graph::flatten;
use crate::config::graph::lemma_flatten_step;
use crate::config::Config;
use crate::config::strings_view;
use crate::config::ApplicationView;
use crate::ordered::applications_get_index;
use crate::ordered::applications_len;
use crate::ordered::profiles_get_index;
use crate::ordered::profiles_len;
use crate::text::starts_with;
use vstd::prelude::*;

verus! {

/// Does `s` begin with `prefix`?
pub open spec fn has_prefix(s: Seq<char>, prefix: Seq<char>) -> bool {
    prefix.len() <= s.len() && s.subrange(0, prefix.len() as int) == prefix
}

/// The names that begin with `current`, in order
pub open spec fn with_prefix(names: Seq<Seq<char>>, current: Seq<char>) -> Seq<Seq<char>>
    decreases names.len(),
{
    if names.len() == 0 {
        Seq::empty()
    } else if has_prefix(names.last(), current) {
        with_prefix(names.drop_last(), current).push(names.last())
    } else {
        with_prefix(names.drop_last(), current)
    }
}

/// The candidates for a word being completed: the names it is a prefix of
pub fn candidates(names: &Vec<String>, current: &str) -> (r: Vec<String>)
    ensures
        strings_view(r@) == with_prefix(strings_view(names@), current@),
{
    let ghost nv = strings_view(names@);
    let mut r: Vec<String> = Vec::new();
    let mut i: usize = 0;
    assert(nv.take(0) =~= Seq::<Seq<char>>::empty());
    assert(strings_view(r@) =~= with_prefix(nv.take(0), current@));
    while i < names.len()
        invariant
            nv == strings_view(names@),
            i <= names@.len(),
            strings_view(r@) == with_prefix(nv.take(i as int), current@),
        decreases names@.len() - i,
    {
        let ghost before = strings_view(r@);
        assert(nv.take(i + 1).drop_last() =~= nv.take(i as int));
        assert(nv.take(i + 1).last() == names@[i as int]@);
        if starts_with(names[i].as_str(), current) {
            r.push(names[i].clone());
            assert(strings_view(r@) =~= before.push(names@[i as int]@));
        }
        i = i + 1;
    }
    assert(nv.take(names@.len() as int) =~= nv);
    r
}

/// A name is offered for completion exactly when the word being completed is
/// a prefix of it; in particular a name equal to the word is offered
pub proof fn lemma_candidates_are_the_prefixed_names(names: Seq<Seq<char>>, current: Seq<char>)
    ensures
        forall|n: Seq<char>| #[trigger] with_prefix(names, current).contains(n) <==> (names.contains(n)
            && current.len() <= n.len() && n.subrange(0, current.len() as int) == current),
        names.contains(current) ==> with_prefix(names, current).contains(current),
    decreases names.len(),
{
    if names.len() > 0 {
        let d = names.drop_last();
        lemma_candidates_are_the_prefixed_names(d, current);
        assert forall|n: Seq<char>| #[trigger] with_prefix(names, current).contains(n) <==> (names.contains(n)
            && current.len() <= n.len() && n.subrange(0, current.len() as int) == current) by {
            assert(names =~= d.push(names.last()));
            if names.contains(n) {
                let i = choose|i: int| 0 <= i < names.len() && names[i] == n;
                if i < d.len() {
                    assert(d[i] == n);
                    assert(d.contains(n));
                }
            }
            if d.contains(n) {
                let i = choose|i: int| 0 <= i < d.len() && d[i] == n;
                assert(names[i] == n);
            }
            let w = with_prefix(d, current);
            if has_prefix(names.last(), current) {
                assert(with_prefix(names, current) == w.push(names.last()));
                if w.push(names.last()).contains(n) {
                    let i = choose|i: int| 0 <= i < w.len() + 1 && w.push(names.last())[i] == n;
                    if i < w.len() {
                        assert(w[i] == n);
                    }
                }
                if w.contains(n) {
                    let i = choose|i: int| 0 <= i < w.len() && w[i] == n;
                    assert(w.push(names.last())[i] == n);
                }
                assert(w.push(names.last())[w.len() as int] == names.last());
            }
            assert(names[names.len() - 1] == names.last());
        }
        if names.contains(current) {
            assert(current.subrange(0, current.len() as int) =~= current);
        }
    } else {
        assert(current.subrange(0, current.len() as int) =~= current);
    }
}

impl Config {
    /// The names of the applications, in order
    pub fn application_names(&self) -> (r: Vec<String>)
        ensures
            strings_view(r@) == self@.map_values(|e: (Seq<char>, ApplicationView)| e.0),
    {
        let mut r: Vec<String> = Vec::new();
        let n = applications_len(&self.applications);
        let mut i: usize = 0;
        while i < n
            invariant
                n == self@.len(),
                i <= n,
                r@.len() == i,
                forall|j: int| 0 <= j < i ==> (#[trigger] r@[j])@ == self@[j].0,
            decreases n - i,
        {
            let (k, _) = applications_get_index(&self.applications, i).unwrap();
            assert(self@[i as int].0 == k@);
            r.push(k.as_str().to_string());
            i = i + 1;
        }
        assert(strings_view(r@) =~= self@.map_values(|e: (Seq<char>, ApplicationView)| e.0));
        r
    }

    /// The names of the profiles of all applications, application by
    /// application
    pub fn profile_names(&self) -> (r: Vec<String>)
        ensures
            strings_view(r@) == flatten(self@).map_values(|e: (crate::config::name::RefView, crate::config::ProfileView)| e.0.profile),
    {
        let ghost cv = self@;
        let mut r: Vec<String> = Vec::new();
        let n = applications_len(&self.applications);
        let mut a: usize = 0;
        assert(cv.take(0) =~= Seq::<(Seq<char>, ApplicationView)>::empty());
        while a < n
            invariant
                cv == self@,
                n == cv.len(),
                a <= n,
                strings_view(r@) == flatten(cv.take(a as int)).map_values(|e: (crate::config::name::RefView, crate::config::ProfileView)| e.0.profile),
            decreases n - a,
        {
            let (aname, app) = applications_get_index(&self.applications, a).unwrap();
            assert(cv[a as int] == (aname@, app@));
            let ghost base = strings_view(r@);
            let ghost entries = app_entries(aname@, app@);
            let np = profiles_len(&app.profiles);
            let mut p: usize = 0;
            while p < np
                invariant
                    np == app@.len(),
                    entries == app_entries(aname@, app@),
                    p <= np,
                    strings_view(r@) == base + entries.take(p as int).map_values(|e: (crate::config::name::RefView, crate::config::ProfileView)| e.0.profile),
                decreases np - p,
            {
                let (pname, _) = profiles_get_index(&app.profiles, p).unwrap();
                assert(app@[p as int].0 == pname@);
                let ghost before = strings_view(r@);
                r.push(pname.as_str().to_string());
                assert(strings_view(r@) =~= before.push(pname@));
                assert(entries.take(p + 1).map_values(|e: (crate::config::name::RefView, crate::config::ProfileView)| e.0.profile)
                    =~= entries.take(p as int).map_values(|e: (crate::config::name::RefView, crate::config::ProfileView)| e.0.profile).push(pname@));
                p = p + 1;
            }
            proof {
                assert(entries.take(np as int) =~= entries);
                lemma_flatten_step(cv, a as int);
                assert(flatten(cv.take(a + 1)).map_values(|e: (crate::config::name::RefView, crate::config::ProfileView)| e.0.profile)
                    =~= flatten(cv.take(a as int)).map_values(|e: (crate::config::name::RefView, crate::config::ProfileView)| e.0.profile)
                    + entries.map_values(|e: (crate::config::name::RefView, crate::config::ProfileView)| e.0.profile));
            }
            a = a + 1;
        }
        assert(cv.take(n as int) =~= cv);
        r
    }
}

} // verus!
