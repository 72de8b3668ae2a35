//! The reconciliation engine: turns the captured output of a manager's list
//! command into the installed-item set and computes the add/remove deltas
//! against the desired set.

use vstd::prelude::*;
use vstd::assert_sets_equal;

use crate::manager::Manager;
use crate::strings::{contains_string, split_nonempty, split_nonempty_seq, views_of};

verus! {

broadcast use vstd::seq_lib::group_seq_properties;

/// The installed items reported by a sequence of captured command outputs:
/// every non-empty newline-delimited token of every output, in order.
pub open spec fn installed_of(outputs: Seq<Seq<char>>) -> Seq<Seq<char>>
    decreases outputs.len(),
{
    if outputs.len() == 0 {
        Seq::empty()
    } else {
        split_nonempty_seq(outputs[0], '\n') + installed_of(outputs.drop_first())
    }
}

/// The installed-item set reported by a sequence of captured outputs.
pub open spec fn installed_set(outputs: Seq<Seq<char>>) -> Set<Seq<char>> {
    installed_of(outputs).to_set()
}

/// A manager's delta sets are exactly the two set differences against the
/// given installed set.
pub open spec fn reconciled(m: Manager, installed: Set<Seq<char>>) -> bool {
    &&& m.to_add_set() == m.desired().difference(installed)
    &&& m.to_remove_set() == installed.difference(m.desired())
}

/// Appending one more output extends the installed items by its tokens.
proof fn lemma_installed_push(outputs: Seq<Seq<char>>, x: Seq<char>)
    ensures
        installed_of(outputs.push(x)) == installed_of(outputs) + split_nonempty_seq(x, '\n'),
    decreases outputs.len(),
{
    let pushed = outputs.push(x);
    if outputs.len() == 0 {
        assert(pushed.drop_first() =~= Seq::empty());
        assert(installed_of(pushed) =~= installed_of(outputs) + split_nonempty_seq(x, '\n'));
    } else {
        assert(pushed.drop_first() =~= outputs.drop_first().push(x));
        lemma_installed_push(outputs.drop_first(), x);
        assert(installed_of(pushed) == split_nonempty_seq(outputs[0], '\n') + (installed_of(
            outputs.drop_first(),
        ) + split_nonempty_seq(x, '\n')));
        assert(split_nonempty_seq(outputs[0], '\n') + (installed_of(outputs.drop_first())
            + split_nonempty_seq(x, '\n')) =~= (split_nonempty_seq(outputs[0], '\n') + installed_of(
            outputs.drop_first(),
        )) + split_nonempty_seq(x, '\n'));
    }
}

/// Splits every captured output into its non-empty newline-delimited tokens.
pub fn parse_installed(outputs: &Vec<String>) -> (r: Vec<String>)
    ensures
        views_of(r@) == installed_of(views_of(outputs@)),
{
    let mut out: Vec<String> = Vec::new();
    let mut k: usize = 0;
    proof {
        assert(views_of(outputs@).take(0) =~= Seq::empty());
        assert(views_of(out@) =~= installed_of(Seq::empty()));
    }
    while k < outputs.len()
        invariant
            k <= outputs@.len(),
            views_of(out@) == installed_of(views_of(outputs@).take(k as int)),
        decreases outputs@.len() - k,
    {
        let segs = split_nonempty(outputs[k].as_str(), '\n');
        let mut j: usize = 0;
        while j < segs.len()
            invariant
                j <= segs@.len(),
                views_of(out@) == installed_of(views_of(outputs@).take(k as int)) + views_of(
                    segs@,
                ).take(j as int),
            decreases segs@.len() - j,
        {
            let seg = segs[j].clone();
            proof {
                assert(views_of(out@.push(seg)) =~= views_of(out@).push(seg@));
                assert(views_of(segs@).take(j + 1) =~= views_of(segs@).take(j as int).push(
                    views_of(segs@)[j as int],
                ));
                assert((installed_of(views_of(outputs@).take(k as int)) + views_of(segs@).take(
                    j as int,
                )).push(views_of(segs@)[j as int]) =~= installed_of(
                    views_of(outputs@).take(k as int),
                ) + views_of(segs@).take(j + 1));
            }
            out.push(seg);
            j = j + 1;
        }
        proof {
            let vs = views_of(outputs@);
            assert(views_of(segs@).take(segs@.len() as int) =~= split_nonempty_seq(
                vs[k as int],
                '\n',
            ));
            assert(vs.take(k + 1) =~= vs.take(k as int).push(vs[k as int]));
            lemma_installed_push(vs.take(k as int), vs[k as int]);
        }
        k = k + 1;
    }
    proof {
        assert(views_of(outputs@).take(outputs@.len() as int) =~= views_of(outputs@));
    }
    out
}

/// Computes the items to add and to remove for one manager, from the captured
/// outputs of its list command: `items_to_add = desired - installed` and
/// `items_to_remove = installed - desired`, exactly, each without duplicates.
/// Every other field is left unchanged.
pub fn compute_add_remove(manager: &mut Manager, outputs: &Vec<String>)
    ensures
        final(manager).name == old(manager).name,
        final(manager).add == old(manager).add,
        final(manager).remove == old(manager).remove,
        final(manager).list == old(manager).list,
        final(manager).upgrade == old(manager).upgrade,
        final(manager).remove_then_add == old(manager).remove_then_add,
        final(manager).items_separator == old(manager).items_separator,
        final(manager).items == old(manager).items,
        reconciled(*final(manager), installed_set(views_of(outputs@))),
        views_of(final(manager).items_to_add@).no_duplicates(),
        views_of(final(manager).items_to_remove@).no_duplicates(),
{
    let installed = parse_installed(outputs);
    let ghost inst_set = installed_set(views_of(outputs@));

    let mut to_add: Vec<String> = Vec::new();
    let mut k: usize = 0;
    while k < manager.items.len()
        invariant
            k <= manager.items@.len(),
            views_of(installed@) == installed_of(views_of(outputs@)),
            inst_set == installed_set(views_of(outputs@)),
            views_of(to_add@).no_duplicates(),
            views_of(to_add@).to_set() =~= views_of(manager.items@).take(k as int).to_set()
                .difference(inst_set),
        decreases manager.items@.len() - k,
    {
        let item = &manager.items[k];
        if !contains_string(&installed, item) && !contains_string(&to_add, item) {
            let it = item.clone();
            proof {
                assert(views_of(to_add@.push(it)) =~= views_of(to_add@).push(it@));
                assert(views_of(to_add@).push(it@).to_set() =~= views_of(to_add@).to_set().insert(
                    it@,
                ));
            }
            to_add.push(it);
        }
        proof {
            let vs = views_of(manager.items@);
            assert(vs.take(k + 1) =~= vs.take(k as int).push(vs[k as int]));
            assert(vs.take(k + 1).to_set() =~= vs.take(k as int).to_set().insert(vs[k as int]));
            assert(views_of(to_add@).to_set() =~= vs.take(k + 1).to_set().difference(inst_set));
        }
        k = k + 1;
    }
    proof {
        assert(views_of(manager.items@).take(manager.items@.len() as int) =~= views_of(
            manager.items@,
        ));
    }

    let mut to_remove: Vec<String> = Vec::new();
    let mut j: usize = 0;
    while j < installed.len()
        invariant
            j <= installed@.len(),
            views_of(installed@) == installed_of(views_of(outputs@)),
            views_of(to_remove@).no_duplicates(),
            views_of(to_remove@).to_set() =~= views_of(installed@).take(j as int).to_set()
                .difference(views_of(manager.items@).to_set()),
        decreases installed@.len() - j,
    {
        let item = &installed[j];
        if !contains_string(&manager.items, item) && !contains_string(&to_remove, item) {
            let it = item.clone();
            proof {
                assert(views_of(to_remove@.push(it)) =~= views_of(to_remove@).push(it@));
                assert(views_of(to_remove@).push(it@).to_set() =~= views_of(
                    to_remove@,
                ).to_set().insert(it@));
            }
            to_remove.push(it);
        }
        proof {
            let vs = views_of(installed@);
            assert(vs.take(j + 1) =~= vs.take(j as int).push(vs[j as int]));
            assert(vs.take(j + 1).to_set() =~= vs.take(j as int).to_set().insert(vs[j as int]));
            assert(views_of(to_remove@).to_set() =~= vs.take(j + 1).to_set().difference(
                views_of(manager.items@).to_set(),
            ));
        }
        j = j + 1;
    }
    proof {
        assert(views_of(installed@).take(installed@.len() as int) =~= views_of(installed@));
        assert(views_of(installed@).to_set() =~= inst_set);
    }

    manager.items_to_add = to_add;
    manager.items_to_remove = to_remove;
}

/// The two delta sets of a reconciliation are always disjoint, and the
/// removals together with the already-converged items recover the installed
/// set.
pub proof fn lemma_deltas_disjoint(m: Manager, installed: Set<Seq<char>>)
    requires
        reconciled(m, installed),
    ensures
        m.to_add_set().intersect(m.to_remove_set()) == Set::<Seq<char>>::empty(),
        m.to_remove_set().union(m.desired().intersect(installed)) == installed,
{
    assert_sets_equal!(m.to_add_set().intersect(m.to_remove_set()), Set::empty());
    assert_sets_equal!(m.to_remove_set().union(m.desired().intersect(installed)), installed);
}

/// Reconciling a manager whose installed set equals its desired set yields
/// two empty delta sets, and, when the delta lists hold no duplicates, two
/// empty delta lists.
pub proof fn lemma_reconcile_converged(m: Manager, installed: Set<Seq<char>>)
    requires
        reconciled(m, installed),
        installed == m.desired(),
        views_of(m.items_to_add@).no_duplicates(),
        views_of(m.items_to_remove@).no_duplicates(),
    ensures
        m.to_add_set() == Set::<Seq<char>>::empty(),
        m.to_remove_set() == Set::<Seq<char>>::empty(),
        m.items_to_add@.len() == 0,
        m.items_to_remove@.len() == 0,
{
    assert_sets_equal!(m.to_add_set(), Set::empty());
    assert_sets_equal!(m.to_remove_set(), Set::empty());
    views_of(m.items_to_add@).unique_seq_to_set();
    views_of(m.items_to_remove@).unique_seq_to_set();
}

} // verus!
