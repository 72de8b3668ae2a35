//! The apply-phase planner: turns the reconciled delta sets into the exact
//! ordered sequence of concrete commands the orchestrator must run, and the
//! upgrade workflow's command sequence.  Executing the commands -- and
//! aborting on the first failure -- is the caller's part; everything decided
//! here is decided before any external command runs.

use vstd::prelude::*;

use crate::errors::MetaError;
use crate::manager::Manager;
use crate::strings::views_of;
use crate::template::{fmt_command, render_spec};

verus! {

broadcast use vstd::seq_lib::group_seq_properties;

/// The commands one manager's apply step issues, in order: the add operation
/// then the remove operation, swapped when `remove_then_add` is set.  An
/// operation whose item set is empty issues nothing; one whose template
/// cannot be rendered makes the whole plan fail.
pub open spec fn manager_plan(m: Manager) -> Option<Seq<Seq<char>>> {
    let add_cmds = if m.items_to_add@.len() == 0 {
        Some(Seq::<Seq<char>>::empty())
    } else {
        render_spec(m.add@, views_of(m.items_to_add@), m.sep(), false)
    };
    let remove_cmds = if m.items_to_remove@.len() == 0 {
        Some(Seq::<Seq<char>>::empty())
    } else {
        render_spec(m.remove@, views_of(m.items_to_remove@), m.sep(), false)
    };
    match (add_cmds, remove_cmds) {
        (Some(a), Some(r)) => Some(
            if m.remove_then_add {
                r + a
            } else {
                a + r
            },
        ),
        _ => None,
    }
}

/// The commands the apply phase issues, manager by manager in canonical
/// order.
pub open spec fn apply_plan(ms: Seq<Manager>) -> Option<Seq<Seq<char>>>
    decreases ms.len(),
{
    if ms.len() == 0 {
        Some(Seq::empty())
    } else {
        match (manager_plan(ms[0]), apply_plan(ms.drop_first())) {
            (Some(h), Some(t)) => Some(h + t),
            _ => None,
        }
    }
}

/// The commands the upgrade workflow issues: for each manager that has an
/// upgrade template, that template rendered with item-free commands allowed.
pub open spec fn upgrade_plan(ms: Seq<Manager>) -> Option<Seq<Seq<char>>>
    decreases ms.len(),
{
    if ms.len() == 0 {
        Some(Seq::empty())
    } else {
        let head = match ms[0].upgrade {
            Some(ref u) => render_spec(u@, views_of(ms[0].items@), ms[0].sep(), true),
            None => Some(Seq::<Seq<char>>::empty()),
        };
        match (head, upgrade_plan(ms.drop_first())) {
            (Some(h), Some(t)) => Some(h + t),
            _ => None,
        }
    }
}

/// True when no manager has anything to add or to remove; the build
/// workflow then has nothing to do.
pub fn nothing_to_do(managers: &Vec<Manager>) -> (r: bool)
    ensures
        r <==> forall|i: int|
            0 <= i < managers@.len() ==> (#[trigger] managers@[i]).items_to_add@.len() == 0
                && managers@[i].items_to_remove@.len() == 0,
{
    let mut i: usize = 0;
    while i < managers.len()
        invariant
            i <= managers@.len(),
            forall|j: int|
                0 <= j < i ==> (#[trigger] managers@[j]).items_to_add@.len() == 0
                    && managers@[j].items_to_remove@.len() == 0,
        decreases managers@.len() - i,
    {
        if managers[i].items_to_add.len() > 0 || managers[i].items_to_remove.len() > 0 {
            return false;
        }
        i = i + 1;
    }
    true
}

/// Plans the apply phase: for each manager in canonical order, the rendered
/// add commands then the rendered remove commands -- in the opposite order
/// for a manager with `remove_then_add` -- skipping operations with no
/// items.  The plan fails exactly where a needed template cannot be
/// rendered; no command of a failing plan is meant to run.
pub fn add_remove_items(managers: &Vec<Manager>) -> (r: Result<Vec<String>, MetaError>)
    ensures
        match r {
            Ok(cmds) => apply_plan(managers@) == Some(views_of(cmds@)),
            Err(e) => apply_plan(managers@) is None && e matches MetaError::TemplateError { .. },
        },
{
    let ghost ms = managers@;
    let mut out: Vec<String> = Vec::new();
    let mut i: usize = 0;
    proof {
        assert(ms.skip(0) =~= ms);
        assert(views_of(out@) =~= Seq::<Seq<char>>::empty());
        if apply_plan(ms) is Some {
            assert(Seq::<Seq<char>>::empty() + apply_plan(ms)->Some_0 =~= apply_plan(ms)->Some_0);
        }
    }
    while i < managers.len()
        invariant
            i <= ms.len(),
            ms == managers@,
            apply_plan(ms) is Some <==> apply_plan(ms.skip(i as int)) is Some,
            apply_plan(ms) is Some ==> apply_plan(ms)->Some_0 == views_of(out@) + apply_plan(
                ms.skip(i as int),
            )->Some_0,
        decreases ms.len() - i,
    {
        proof {
            let suf = ms.skip(i as int);
            assert(suf[0] == ms[i as int]);
            assert(suf.drop_first() =~= ms.skip(i + 1));
        }
        let m = &managers[i];
        let add_cmds = if m.items_to_add.len() > 0 {
            match fmt_command(m.add.as_str(), &m.items_to_add, m.separator(), false) {
                Ok(cs) => cs,
                Err(e) => {
                    proof {
                        assert(manager_plan(ms[i as int]) is None);
                        assert(apply_plan(ms.skip(i as int)) is None);
                    }
                    return Err(e);
                },
            }
        } else {
            Vec::new()
        };
        let remove_cmds = if m.items_to_remove.len() > 0 {
            match fmt_command(m.remove.as_str(), &m.items_to_remove, m.separator(), false) {
                Ok(cs) => cs,
                Err(e) => {
                    proof {
                        assert(manager_plan(ms[i as int]) is None);
                        assert(apply_plan(ms.skip(i as int)) is None);
                    }
                    return Err(e);
                },
            }
        } else {
            Vec::new()
        };
        proof {
            assert(views_of(Seq::<String>::empty()) =~= Seq::<Seq<char>>::empty());
            assert(manager_plan(ms[i as int]) == Some(
                if ms[i as int].remove_then_add {
                    views_of(remove_cmds@) + views_of(add_cmds@)
                } else {
                    views_of(add_cmds@) + views_of(remove_cmds@)
                },
            ));
        }
        let (mut first, mut second) = if m.remove_then_add {
            (remove_cmds, add_cmds)
        } else {
            (add_cmds, remove_cmds)
        };
        let ghost first0 = first@;
        let ghost second0 = second@;
        let ghost out_pre = out@;
        proof {
            assert(manager_plan(ms[i as int]) == Some(views_of(first0) + views_of(second0)));
        }
        out.append(&mut first);
        out.append(&mut second);
        proof {
            assert(views_of(out@) =~= views_of(out_pre) + (views_of(first0) + views_of(
                second0,
            )));
            let suf = ms.skip(i as int);
            if apply_plan(ms) is Some {
                assert(apply_plan(suf) is Some);
                assert(apply_plan(ms.skip(i + 1)) is Some);
                assert(apply_plan(suf)->Some_0 == (views_of(first0) + views_of(second0))
                    + apply_plan(ms.skip(i + 1))->Some_0);
                assert(views_of(out_pre) + ((views_of(first0) + views_of(second0)) + apply_plan(
                    ms.skip(i + 1),
                )->Some_0) =~= (views_of(out_pre) + (views_of(first0) + views_of(second0)))
                    + apply_plan(ms.skip(i + 1))->Some_0);
            } else {
                assert(apply_plan(suf) is None);
                assert(apply_plan(ms.skip(i + 1)) is None);
            }
        }
        i = i + 1;
    }
    proof {
        assert(ms.skip(ms.len() as int) =~= Seq::<Manager>::empty());
        assert(views_of(out@) + Seq::<Seq<char>>::empty() =~= views_of(out@));
    }
    Ok(out)
}

/// Plans the upgrade workflow: for each manager in canonical order that has
/// an upgrade template, that template rendered with item-free commands
/// allowed.
pub fn upgrade(managers: &Vec<Manager>) -> (r: Result<Vec<String>, MetaError>)
    ensures
        match r {
            Ok(cmds) => upgrade_plan(managers@) == Some(views_of(cmds@)),
            Err(e) => upgrade_plan(managers@) is None && e matches MetaError::TemplateError { .. },
        },
{
    let ghost ms = managers@;
    let mut out: Vec<String> = Vec::new();
    let mut i: usize = 0;
    proof {
        assert(ms.skip(0) =~= ms);
        assert(views_of(out@) =~= Seq::<Seq<char>>::empty());
        if upgrade_plan(ms) is Some {
            assert(Seq::<Seq<char>>::empty() + upgrade_plan(ms)->Some_0 =~= upgrade_plan(
                ms,
            )->Some_0);
        }
    }
    while i < managers.len()
        invariant
            i <= ms.len(),
            ms == managers@,
            upgrade_plan(ms) is Some <==> upgrade_plan(ms.skip(i as int)) is Some,
            upgrade_plan(ms) is Some ==> upgrade_plan(ms)->Some_0 == views_of(out@)
                + upgrade_plan(ms.skip(i as int))->Some_0,
        decreases ms.len() - i,
    {
        proof {
            let suf = ms.skip(i as int);
            assert(suf[0] == ms[i as int]);
            assert(suf.drop_first() =~= ms.skip(i + 1));
        }
        let m = &managers[i];
        let mut cmds = match &m.upgrade {
            Some(u) => {
                match fmt_command(u.as_str(), &m.items, m.separator(), true) {
                    Ok(cs) => cs,
                    Err(e) => {
                        proof {
                            assert(upgrade_plan(ms.skip(i as int)) is None);
                        }
                        return Err(e);
                    },
                }
            },
            None => Vec::new(),
        };
        let ghost cmds0 = cmds@;
        let ghost out_pre = out@;
        proof {
            assert(views_of(Seq::<String>::empty()) =~= Seq::<Seq<char>>::empty());
        }
        out.append(&mut cmds);
        proof {
            assert(views_of(out@) =~= views_of(out_pre) + views_of(cmds0));
            let suf = ms.skip(i as int);
            if upgrade_plan(ms) is Some {
                assert(upgrade_plan(ms.skip(i + 1)) is Some);
                assert(upgrade_plan(suf)->Some_0 == views_of(cmds0) + upgrade_plan(
                    ms.skip(i + 1),
                )->Some_0);
                assert(views_of(out_pre) + (views_of(cmds0) + upgrade_plan(ms.skip(i + 1))->Some_0)
                    =~= (views_of(out_pre) + views_of(cmds0)) + upgrade_plan(
                    ms.skip(i + 1),
                )->Some_0);
            } else {
                assert(upgrade_plan(suf) is None);
                assert(upgrade_plan(ms.skip(i + 1)) is None);
            }
        }
        i = i + 1;
    }
    proof {
        assert(ms.skip(ms.len() as int) =~= Seq::<Manager>::empty());
        assert(views_of(out@) + Seq::<Seq<char>>::empty() =~= views_of(out@));
    }
    Ok(out)
}

/// Re-running the build workflow against an already-converged state performs
/// zero external commands: when every manager's delta sets are empty, the
/// apply plan is the empty command sequence.
pub proof fn lemma_converged_plan_empty(ms: Seq<Manager>)
    requires
        forall|i: int|
            0 <= i < ms.len() ==> (#[trigger] ms[i]).items_to_add@.len() == 0
                && ms[i].items_to_remove@.len() == 0,
    ensures
        apply_plan(ms) == Some(Seq::<Seq<char>>::empty()),
    decreases ms.len(),
{
    if ms.len() == 0 {
    } else {
        assert(manager_plan(ms[0]) == Some(Seq::<Seq<char>>::empty())) by {
            assert(Seq::<Seq<char>>::empty() + Seq::<Seq<char>>::empty()
                =~= Seq::<Seq<char>>::empty());
        }
        assert forall|i: int|
            0 <= i < ms.drop_first().len() implies (#[trigger] ms.drop_first()[i]).items_to_add@.len()
            == 0 && ms.drop_first()[i].items_to_remove@.len() == 0 by {
            assert(ms.drop_first()[i] == ms[i + 1]);
        }
        lemma_converged_plan_empty(ms.drop_first());
        assert(Seq::<Seq<char>>::empty() + Seq::<Seq<char>>::empty()
            =~= Seq::<Seq<char>>::empty());
    }
}

} // verus!
