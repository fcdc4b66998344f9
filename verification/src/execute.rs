//! Side effects: which commands run, and in what order, when an environment
//! is set up and torn down.

use crate::config::option_command_view;
use crate::config::side_effects_view;
use crate::config::CommandView;
use crate::config::SideEffect;
use crate::config::SideEffectCommand;
use crate::config::SideEffectView;
use vstd::prelude::*;

verus! {

/// The setup commands of the side effects, in order
pub open spec fn setups(s: Seq<SideEffectView>) -> Seq<CommandView>
    decreases s.len(),
{
    if s.len() == 0 {
        Seq::empty()
    } else {
        setups(s.drop_last()) + match s.last().setup {
            Some(c) => seq![c],
            None => Seq::empty(),
        }
    }
}

/// The teardown commands of the side effects, in order of definition
pub open spec fn teardowns(s: Seq<SideEffectView>) -> Seq<CommandView>
    decreases s.len(),
{
    if s.len() == 0 {
        Seq::empty()
    } else {
        teardowns(s.drop_last()) + match s.last().teardown {
            Some(c) => seq![c],
            None => Seq::empty(),
        }
    }
}

pub open spec fn commands_view(v: Seq<SideEffectCommand>) -> Seq<CommandView> {
    v.map_values(|c: SideEffectCommand| c@)
}

/// The commands that apply the side effects: each setup, in order
pub fn setup_commands(side_effects: &Vec<SideEffect>) -> (r: Vec<SideEffectCommand>)
    ensures
        commands_view(r@) == setups(side_effects_view(side_effects@)),
{
    let ghost s = side_effects_view(side_effects@);
    let mut r: Vec<SideEffectCommand> = Vec::new();
    let mut i: usize = 0;
    assert(s.take(0) =~= Seq::<SideEffectView>::empty());
    assert(commands_view(r@) =~= setups(s.take(0)));
    while i < side_effects.len()
        invariant
            s == side_effects_view(side_effects@),
            i <= side_effects@.len(),
            commands_view(r@) == setups(s.take(i as int)),
        decreases side_effects@.len() - i,
    {
        let ghost before = commands_view(r@);
        assert(s.take(i + 1).drop_last() =~= s.take(i as int));
        assert(s.take(i + 1).last() == side_effects@[i as int]@);
        match side_effects[i].setup() {
            Some(c) => {
                r.push(c.copy());
                assert(commands_view(r@) =~= before.push(c@));
                assert(commands_view(r@) =~= setups(s.take(i + 1)));
            },
            None => {
                assert(setups(s.take(i + 1)) =~= before);
            },
        }
        i = i + 1;
    }
    assert(s.take(side_effects@.len() as int) =~= s);
    r
}

/// The commands that revert the side effects: each teardown, in *reverse*
/// order, so the last side effect set up is the first torn down
pub fn teardown_commands(side_effects: &Vec<SideEffect>) -> (r: Vec<SideEffectCommand>)
    ensures
        commands_view(r@) == teardowns(side_effects_view(side_effects@)).reverse(),
{
    let ghost s = side_effects_view(side_effects@);
    let mut r: Vec<SideEffectCommand> = Vec::new();
    let mut i: usize = side_effects.len();
    assert(s.take(s.len() as int) =~= s);
    assert(commands_view(r@) + teardowns(s.take(i as int)).reverse() =~= teardowns(s).reverse());
    while i > 0
        invariant
            s == side_effects_view(side_effects@),
            i <= side_effects@.len(),
            commands_view(r@) + teardowns(s.take(i as int)).reverse() == teardowns(s).reverse(),
        decreases i,
    {
        i = i - 1;
        let ghost before = commands_view(r@);
        assert(s.take(i + 1).drop_last() =~= s.take(i as int));
        assert(s.take(i + 1).last() == side_effects@[i as int]@);
        match side_effects[i].teardown() {
            Some(c) => {
                r.push(c.copy());
                assert(commands_view(r@) =~= before.push(c@));
                assert(teardowns(s.take(i + 1)) =~= teardowns(s.take(i as int)).push(c@));
                assert(teardowns(s.take(i + 1)).reverse() =~= seq![c@] + teardowns(s.take(i as int)).reverse());
                assert(commands_view(r@) + teardowns(s.take(i as int)).reverse() =~= before + teardowns(s.take(i + 1)).reverse());
            },
            None => {
                assert(teardowns(s.take(i + 1)) =~= teardowns(s.take(i as int)));
            },
        }
    }
    assert(s.take(0) =~= Seq::<SideEffectView>::empty());
    assert(commands_view(r@) =~= teardowns(s).reverse());
    r
}


/// Where every side effect has both commands, teardown mirrors setup: the
/// `j`-th command to set up belongs to the `j`-th side effect, and the `j`-th
/// to tear down to the `j`-th from the end
pub proof fn lemma_teardown_mirrors_setup(s: Seq<SideEffectView>)
    requires
        forall|j: int| 0 <= j < s.len() ==> (#[trigger] s[j]).setup is Some && s[j].teardown is Some,
    ensures
        setups(s).len() == s.len(),
        teardowns(s).reverse().len() == s.len(),
        forall|j: int| 0 <= j < s.len() ==> #[trigger] setups(s)[j] == s[j].setup->0,
        forall|j: int| 0 <= j < s.len() ==> #[trigger] teardowns(s).reverse()[j] == s[s.len() - 1 - j].teardown->0,
    decreases s.len(),
{
    if s.len() > 0 {
        let d = s.drop_last();
        assert forall|j: int| 0 <= j < d.len() implies (#[trigger] d[j]).setup is Some && d[j].teardown is Some by {
            assert(d[j] == s[j]);
        }
        lemma_teardown_mirrors_setup(d);
        assert(s.last() == s[s.len() - 1]);
        assert forall|j: int| 0 <= j < s.len() implies #[trigger] setups(s)[j] == s[j].setup->0 by {
            if j < d.len() {
                assert(setups(s)[j] == setups(d)[j]);
                assert(d[j] == s[j]);
            }
        }
        assert forall|j: int| 0 <= j < s.len() implies #[trigger] teardowns(s).reverse()[j] == s[s.len() - 1 - j].teardown->0 by {
            let t = teardowns(s);
            assert(t.reverse()[j] == t[t.len() - 1 - j]);
            if j > 0 {
                assert(t[t.len() - 1 - j] == teardowns(d)[teardowns(d).len() - 1 - (j - 1)]);
                assert(teardowns(d).reverse()[j - 1] == teardowns(d)[teardowns(d).len() - 1 - (j - 1)]);
                assert(d[d.len() - 1 - (j - 1)] == s[s.len() - 1 - j]);
            }
        }
    }
}

} // verus!
