//! The config resolver: walks the import graph of configuration fragments,
//! starting from the host's machine fragment, and merges every per-manager
//! item declaration into the managers' desired-item sets.
//!
//! The walk keeps a worklist of fragment paths and a cursor into it; a path
//! is enqueued at most once, which is what makes mutually-importing
//! fragments safe: the second visit simply never happens.
//!
//! Items declared for a name that matches no loaded manager are silently
//! ignored, mirroring how the orchestrator treats fragments shared between
//! hosts whose manager sets differ.

use vstd::prelude::*;

use crate::errors::MetaError;
use crate::manager::Manager;
use crate::strings::{concat_str, contains_string, views_of};
use crate::toml_input::{
    entries_model, parse_toml_table, toml_table_of, value_model, TomlValue, TomlValueModel,
};

verus! {

broadcast use vstd::seq_lib::group_seq_properties;

/// The reserved key whose values import further fragments.
pub open spec fn imports_key() -> Seq<char> {
    seq!['i', 'm', 'p', 'o', 'r', 't', 's']
}

/// The fragment the resolution starts from, derived from the host identity:
/// the machine fragment, addressed relative to the fragment root.
pub open spec fn machine_path_spec(host: Seq<char>) -> Seq<char> {
    "../machines/"@ + host
}

/// The path of the machine fragment for `hostname`.
pub fn machine_fragment_path(hostname: &str) -> (r: String)
    ensures
        r@ == machine_path_spec(hostname@),
{
    concat_str("../machines/", hostname)
}

/// The text registered under `path`, taking the first entry when a path is
/// registered twice.
pub open spec fn frag_lookup(frags: Seq<(String, String)>, path: Seq<char>) -> Option<Seq<char>>
    decreases frags.len(),
{
    if frags.len() == 0 {
        None
    } else if frags[0].0@ == path {
        Some(frags[0].1@)
    } else {
        frag_lookup(frags.drop_first(), path)
    }
}

/// The parsed entries of the fragment at `path`, when it exists and parses.
pub open spec fn frag_entries(frags: Seq<(String, String)>, path: Seq<char>) -> Option<
    Seq<(Seq<char>, TomlValueModel)>,
> {
    match frag_lookup(frags, path) {
        Some(text) => toml_table_of(text),
        None => None,
    }
}

/// The items a table value contributes: one for a string, each element for
/// an array of strings, none for any other shape.
pub open spec fn value_items(v: TomlValueModel) -> Option<Seq<Seq<char>>> {
    match v {
        TomlValueModel::Text(s) => Some(seq![s]),
        TomlValueModel::List(xs) => Some(xs),
        TomlValueModel::Flag(_) => None,
        TomlValueModel::Other => None,
    }
}

/// Every value of the table is a single string or an array of strings.
pub open spec fn entries_ok(es: Seq<(Seq<char>, TomlValueModel)>) -> bool {
    forall|k: int| 0 <= k < es.len() ==> value_items(#[trigger] es[k].1) is Some
}

/// Entry `k` of the table declares `it` under key `name`.
pub open spec fn entry_declares(
    es: Seq<(Seq<char>, TomlValueModel)>,
    k: int,
    name: Seq<char>,
    it: Seq<char>,
) -> bool {
    &&& 0 <= k < es.len()
    &&& es[k].0 == name
    &&& value_items(es[k].1) matches Some(xs) && xs.contains(it)
}

/// The items the table declares for the manager named `name`.  The reserved
/// `imports` key never feeds a manager.
pub open spec fn items_for(es: Seq<(Seq<char>, TomlValueModel)>, name: Seq<char>) -> Set<
    Seq<char>,
> {
    if name == imports_key() {
        Set::empty()
    } else {
        Set::new(|it: Seq<char>| exists|k: int| entry_declares(es, k, name, it))
    }
}

/// `p` is imported by the given table.
pub open spec fn is_import(es: Seq<(Seq<char>, TomlValueModel)>, p: Seq<char>) -> bool {
    exists|k: int| entry_declares(es, k, imports_key(), p)
}

/// The fragment at `path` exists, parses, and all its values are
/// well-shaped.
pub open spec fn good_fragment(frags: Seq<(String, String)>, path: Seq<char>) -> bool {
    frag_entries(frags, path) matches Some(es) && entries_ok(es)
}

/// A possible processing history of the resolver: distinct fragment paths,
/// the first being the seed, every later one imported by an earlier one, and
/// every one of them present, parsed and well-shaped.
pub open spec fn resolution_trace(
    frags: Seq<(String, String)>,
    seed: Seq<char>,
    visited: Seq<Seq<char>>,
) -> bool {
    &&& visited.no_duplicates()
    &&& visited.len() >= 1 ==> visited[0] == seed
    &&& forall|i: int| 0 <= i < visited.len() ==> good_fragment(frags, #[trigger] visited[i])
    &&& forall|i: int|
        1 <= i < visited.len() ==> exists|j: int|
            0 <= j < i && is_import(
                frag_entries(frags, visited[j])->Some_0,
                #[trigger] visited[i],
            )
}

/// The trace is complete: every import of a visited fragment was itself
/// visited.
pub open spec fn trace_complete(frags: Seq<(String, String)>, visited: Seq<Seq<char>>) -> bool {
    forall|j: int, p: Seq<char>|
        0 <= j < visited.len() && #[trigger] is_import(frag_entries(frags, visited[j])->Some_0, p)
            ==> visited.contains(p)
}

/// All the items the visited fragments declare for the manager named
/// `name`.  Membership depends only on which fragments were visited, never
/// on the order they were visited in.
pub open spec fn visited_items_for(
    frags: Seq<(String, String)>,
    visited: Seq<Seq<char>>,
    name: Seq<char>,
) -> Set<Seq<char>> {
    Set::new(
        |it: Seq<char>|
            exists|i: int|
                0 <= i < visited.len() && items_for(
                    frag_entries(frags, #[trigger] visited[i])->Some_0,
                    name,
                ).contains(it),
    )
}

/// Everything but the desired-item list is unchanged between `m1` and `m2`.
pub open spec fn same_but_items(m2: Manager, m1: Manager) -> bool {
    &&& m2.name == m1.name
    &&& m2.add == m1.add
    &&& m2.remove == m1.remove
    &&& m2.list == m1.list
    &&& m2.upgrade == m1.upgrade
    &&& m2.remove_then_add == m1.remove_then_add
    &&& m2.items_separator == m1.items_separator
    &&& m2.items_to_add == m1.items_to_add
    &&& m2.items_to_remove == m1.items_to_remove
}

/// The managers in `ms2` are those of `ms1` with each desired set grown by
/// exactly what the visited fragments declare for it, duplicate-free lists
/// staying duplicate-free.
pub open spec fn desired_updated(
    ms2: Seq<Manager>,
    ms1: Seq<Manager>,
    frags: Seq<(String, String)>,
    visited: Seq<Seq<char>>,
) -> bool {
    &&& ms2.len() == ms1.len()
    &&& forall|m: int| 0 <= m < ms1.len() ==> same_but_items(#[trigger] ms2[m], ms1[m])
    &&& forall|m: int|
        0 <= m < ms1.len() ==> views_of(#[trigger] ms2[m].items@).to_set() == views_of(
            ms1[m].items@,
        ).to_set().union(visited_items_for(frags, visited, ms1[m].name@))
    &&& forall|m: int|
        0 <= m < ms1.len() && views_of(ms1[m].items@).no_duplicates() ==> views_of(
            #[trigger] ms2[m].items@,
        ).no_duplicates()
}

/// The items the first `upto` entries of the table declare for `name`.
spec fn items_for_prefix(
    es: Seq<(Seq<char>, TomlValueModel)>,
    upto: int,
    name: Seq<char>,
) -> Set<Seq<char>> {
    if name == imports_key() {
        Set::empty()
    } else {
        Set::new(|it: Seq<char>| exists|kk: int| kk < upto && entry_declares(es, kk, name, it))
    }
}

/// A path that can be looked up is one of the registered keys.
proof fn lemma_lookup_in_keys(frags: Seq<(String, String)>, path: Seq<char>)
    requires
        frag_lookup(frags, path) is Some,
    ensures
        frags.map_values(|p: (String, String)| p.0@).contains(path),
    decreases frags.len(),
{
    let keys = frags.map_values(|p: (String, String)| p.0@);
    if frags[0].0@ == path {
        assert(keys[0] == path);
    } else {
        lemma_lookup_in_keys(frags.drop_first(), path);
        assert(frags.drop_first().map_values(|p: (String, String)| p.0@) =~= keys.drop_first());
        let i = choose|i: int|
            0 <= i < keys.drop_first().len() && keys.drop_first()[i] == path;
        assert(keys[i + 1] == path);
    }
}

/// Distinct paths that can all be looked up are no more numerous than the
/// registered fragments.
proof fn lemma_distinct_paths_bound(frags: Seq<(String, String)>, paths: Seq<Seq<char>>)
    requires
        paths.no_duplicates(),
        forall|i: int| 0 <= i < paths.len() ==> frag_lookup(frags, #[trigger] paths[i]) is Some,
    ensures
        paths.len() <= frags.len(),
{
    let keys = frags.map_values(|p: (String, String)| p.0@);
    assert forall|i: int| 0 <= i < paths.len() implies keys.to_set().contains(
        #[trigger] paths[i],
    ) by {
        lemma_lookup_in_keys(frags, paths[i]);
    }
    assert(paths.to_set().subset_of(keys.to_set()));
    paths.unique_seq_to_set();
    keys.lemma_cardinality_of_set();
    vstd::set_lib::lemma_len_subset(paths.to_set(), keys.to_set());
}

/// Visiting one more fragment grows the contributed items by exactly what
/// that fragment declares.
proof fn lemma_visited_push(
    frags: Seq<(String, String)>,
    visited: Seq<Seq<char>>,
    p: Seq<char>,
    name: Seq<char>,
)
    ensures
        visited_items_for(frags, visited.push(p), name) == visited_items_for(
            frags,
            visited,
            name,
        ).union(items_for(frag_entries(frags, p)->Some_0, name)),
{
    let lhs = visited_items_for(frags, visited.push(p), name);
    let rhs = visited_items_for(frags, visited, name).union(
        items_for(frag_entries(frags, p)->Some_0, name),
    );
    assert forall|it: Seq<char>| lhs.contains(it) implies rhs.contains(it) by {
        let i = choose|i: int|
            0 <= i < visited.push(p).len() && items_for(
                frag_entries(frags, visited.push(p)[i])->Some_0,
                name,
            ).contains(it);
        if i < visited.len() {
            assert(visited.push(p)[i] == visited[i]);
        } else {
            assert(visited.push(p)[i] == p);
        }
    }
    assert forall|it: Seq<char>| rhs.contains(it) implies lhs.contains(it) by {
        if visited_items_for(frags, visited, name).contains(it) {
            let i = choose|i: int|
                0 <= i < visited.len() && items_for(
                    frag_entries(frags, visited[i])->Some_0,
                    name,
                ).contains(it);
            assert(visited.push(p)[i] == visited[i]);
        } else {
            assert(visited.push(p)[visited.len() as int] == p);
        }
    }
    assert(lhs =~= rhs);
}

/// Inserts every given item that is not already present, preserving freedom
/// from duplicates.
fn insert_items(items: &mut Vec<String>, vals: &Vec<String>)
    ensures
        views_of(final(items)@).to_set() == views_of(old(items)@).to_set().union(
            views_of(vals@).to_set(),
        ),
        views_of(old(items)@).no_duplicates() ==> views_of(final(items)@).no_duplicates(),
{
    let mut k: usize = 0;
    proof {
        assert(views_of(items@).to_set() =~= views_of(old(items)@).to_set().union(
            views_of(vals@).take(0).to_set(),
        ));
    }
    while k < vals.len()
        invariant
            k <= vals@.len(),
            views_of(items@).to_set() == views_of(old(items)@).to_set().union(
                views_of(vals@).take(k as int).to_set(),
            ),
            views_of(old(items)@).no_duplicates() ==> views_of(items@).no_duplicates(),
        decreases vals@.len() - k,
    {
        let v = &vals[k];
        if !contains_string(items, v) {
            let c = v.clone();
            proof {
                assert(views_of(items@.push(c)) =~= views_of(items@).push(c@));
                assert(views_of(items@).push(c@).to_set() =~= views_of(items@).to_set().insert(
                    c@,
                ));
                if views_of(items@).no_duplicates() {
                    assert(views_of(items@).push(c@).no_duplicates());
                }
            }
            items.push(c);
        }
        proof {
            let vs = views_of(vals@);
            assert(vs.take(k + 1) =~= vs.take(k as int).push(vs[k as int]));
            assert(vs.take(k + 1).to_set() =~= vs.take(k as int).to_set().insert(vs[k as int]));
            assert(views_of(items@).to_set() =~= views_of(old(items)@).to_set().union(
                vs.take(k + 1).to_set(),
            ));
        }
        k = k + 1;
    }
    proof {
        assert(views_of(vals@).take(vals@.len() as int) =~= views_of(vals@));
    }
}

/// Imports declared by the first `upto` entries of the table.
spec fn prefix_imports(es: Seq<(Seq<char>, TomlValueModel)>, upto: int, p: Seq<char>) -> bool {
    exists|kk: int| kk < upto && entry_declares(es, kk, imports_key(), p)
}

/// A complete, successful resolution history: a trace that starts at the
/// seed and is closed under imports.
pub open spec fn resolve_success(
    frags: Seq<(String, String)>,
    seed: Seq<char>,
    visited: Seq<Seq<char>>,
) -> bool {
    &&& resolution_trace(frags, seed, visited)
    &&& visited.len() >= 1
    &&& trace_complete(frags, visited)
}

/// A failed resolution: after the history `visited`, the fragment at `p` --
/// the seed itself, or an import of a visited fragment -- is missing,
/// unparsable, or holds an ill-shaped value, exactly as the error says.
pub open spec fn resolve_failure(
    frags: Seq<(String, String)>,
    seed: Seq<char>,
    visited: Seq<Seq<char>>,
    p: Seq<char>,
    e: MetaError,
) -> bool {
    &&& resolution_trace(frags, seed, visited)
    &&& !visited.contains(p)
    &&& ((visited.len() == 0 && p == seed) || exists|j: int|
        0 <= j < visited.len() && is_import(
            frag_entries(frags, #[trigger] visited[j])->Some_0,
            p,
        ))
    &&& match e {
        MetaError::ResolveError { path } => path@ == p && frag_lookup(frags, p) is None,
        MetaError::LoadError { path, detail: _ } => path@ == p && (frag_lookup(
            frags,
            p,
        ) matches Some(text) && toml_table_of(text) is None),
        MetaError::SchemaError { subject, field } => subject@ == p && (frag_entries(
            frags,
            p,
        ) matches Some(es) && exists|kk: int|
            0 <= kk < es.len() && es[kk].0 == field@ && value_items(#[trigger] es[kk].1) is None),
        _ => false,
    }
}

/// The processed prefix of the worklist is a resolution trace.
proof fn lemma_prefix_trace(
    frags: Seq<(String, String)>,
    seed: Seq<char>,
    vq: Seq<Seq<char>>,
    cursor: int,
)
    requires
        0 <= cursor <= vq.len(),
        vq.len() >= 1,
        vq.no_duplicates(),
        vq[0] == seed,
        forall|i: int| 0 <= i < cursor ==> good_fragment(frags, #[trigger] vq[i]),
        forall|i: int|
            1 <= i < vq.len() ==> exists|j: int|
                0 <= j < i && j < cursor && is_import(
                    frag_entries(frags, vq[j])->Some_0,
                    #[trigger] vq[i],
                ),
    ensures
        resolution_trace(frags, seed, vq.take(cursor)),
{
    let t = vq.take(cursor);
    assert forall|i: int, j: int|
        0 <= i < t.len() && 0 <= j < t.len() && i != j implies t[i] != t[j] by {
        assert(t[i] == vq[i] && t[j] == vq[j]);
    }
    assert(t.no_duplicates());
    if cursor >= 1 {
        assert(t[0] == vq[0]);
    }
    assert forall|i: int| 0 <= i < t.len() implies good_fragment(frags, #[trigger] t[i]) by {
        assert(t[i] == vq[i]);
    }
    assert forall|i: int| 1 <= i < t.len() implies exists|j: int|
        0 <= j < i && is_import(frag_entries(frags, t[j])->Some_0, #[trigger] t[i]) by {
        let j = choose|j: int|
            0 <= j < i && j < cursor && is_import(frag_entries(frags, vq[j])->Some_0, vq[i]);
        assert(t[j] == vq[j] && t[i] == vq[i]);
        assert(is_import(frag_entries(frags, t[j])->Some_0, t[i]));
    }
}

/// Walks the import graph from the host's machine fragment, merging every
/// per-manager item declaration into the managers' desired-item sets, in
/// place.  Each fragment is loaded and processed at most once, which is what
/// makes mutually-importing fragments safe: resolution terminates because a
/// second visit never happens.  Items declared for a manager name that was
/// not loaded are silently ignored; a missing fragment, an unparsable
/// fragment, and a value that is neither a string nor an array of strings
/// are fatal.
#[verifier::loop_isolation(false)]
#[verifier::rlimit(100)]
pub fn load_configs(
    managers: &mut Vec<Manager>,
    hostname: &str,
    fragments: &Vec<(String, String)>,
) -> (r: Result<(), MetaError>)
    ensures
        match r {
            Ok(_) => exists|visited: Seq<Seq<char>>|
                {
                    &&& #[trigger] resolve_success(
                        fragments@,
                        machine_path_spec(hostname@),
                        visited,
                    )
                    &&& desired_updated(final(managers)@, old(managers)@, fragments@, visited)
                },
            Err(e) => exists|visited: Seq<Seq<char>>, p: Seq<char>|
                {
                    &&& #[trigger] resolve_failure(
                        fragments@,
                        machine_path_spec(hostname@),
                        visited,
                        p,
                        e,
                    )
                    &&& desired_updated(final(managers)@, old(managers)@, fragments@, visited)
                },
        },
{
    let ghost frags = fragments@;
    let ghost seed = machine_path_spec(hostname@);
    let ghost ms0 = old(managers)@;

    let imports_str: String = String::from_str("imports");
    proof {
        reveal_strlit("imports");
        assert(imports_str@ =~= imports_key());
    }

    let mut queue: Vec<String> = Vec::new();
    queue.push(machine_fragment_path(hostname));
    let mut cursor: usize = 0;
    proof {
        assert(views_of(queue@) =~= seq![seed]);
        assert(views_of(queue@).take(0) =~= Seq::<Seq<char>>::empty());
        assert forall|m: int| 0 <= m < ms0.len() implies views_of(#[trigger] ms0[m].items@).to_set()
            == views_of(ms0[m].items@).to_set().union(
            visited_items_for(frags, views_of(queue@).take(0), ms0[m].name@),
        ) by {
            assert(visited_items_for(frags, views_of(queue@).take(0), ms0[m].name@)
                =~= Set::<Seq<char>>::empty());
            assert(views_of(ms0[m].items@).to_set().union(Set::empty()) =~= views_of(
                ms0[m].items@,
            ).to_set());
        }
    }
    while cursor < queue.len()
        invariant
            managers@.len() == ms0.len(),
            queue@.len() >= 1,
            cursor <= queue@.len(),
            cursor <= frags.len(),
            views_of(queue@).no_duplicates(),
            views_of(queue@)[0] == seed,
            forall|i: int|
                0 <= i < cursor ==> good_fragment(frags, #[trigger] views_of(queue@)[i]),
            forall|i: int|
                1 <= i < queue@.len() ==> exists|j: int|
                    0 <= j < i && j < cursor && is_import(
                        frag_entries(frags, views_of(queue@)[j])->Some_0,
                        #[trigger] views_of(queue@)[i],
                    ),
            forall|j: int, p: Seq<char>|
                0 <= j < cursor && #[trigger] is_import(
                    frag_entries(frags, views_of(queue@)[j])->Some_0,
                    p,
                ) ==> views_of(queue@).contains(p),
            desired_updated(managers@, ms0, frags, views_of(queue@).take(cursor as int)),
        decreases frags.len() + 1 - cursor,
    {
        let ghost vq = views_of(queue@);
        let ghost visited = vq.take(cursor as int);
        proof {
            lemma_prefix_trace(frags, seed, vq, cursor as int);
            assert(!visited.contains(vq[cursor as int])) by {
                if visited.contains(vq[cursor as int]) {
                    let i = choose|i: int|
                        0 <= i < visited.len() && visited[i] == vq[cursor as int];
                    assert(vq[i] == vq[cursor as int]);
                }
            }
            if cursor > 0 {
                let j = choose|j: int|
                    0 <= j < cursor as int && j < cursor as int && is_import(
                        frag_entries(frags, vq[j])->Some_0,
                        vq[cursor as int],
                    );
                assert(visited[j] == vq[j]);
                assert(is_import(
                    frag_entries(frags, visited[j])->Some_0,
                    vq[cursor as int],
                ));
            }
        }
        let path = queue[cursor].clone();
        let text = match lookup_fragment(fragments, &path) {
            Some(t) => t,
            None => {
                let err = MetaError::ResolveError { path };
                proof {
                    assert(resolve_failure(frags, seed, visited, vq[cursor as int], err));
                }
                return Err(err);
            },
        };
        let entries = match parse_toml_table(text.as_str()) {
            Ok(es) => es,
            Err(detail) => {
                let err = MetaError::LoadError { path, detail };
                proof {
                    assert(resolve_failure(frags, seed, visited, vq[cursor as int], err));
                }
                return Err(err);
            },
        };
        let ghost es = entries_model(entries@);
        proof {
            assert(frag_entries(frags, vq[cursor as int]) == Some(es));
        }

        // Validate every value of the fragment before merging anything.
        let mut k: usize = 0;
        while k < entries.len()
            invariant
                k <= entries@.len(),
                forall|i: int| 0 <= i < k ==> value_items(#[trigger] es[i].1) is Some,
            decreases entries@.len() - k,
        {
            match &entries[k].1 {
                TomlValue::Text(_) => {},
                TomlValue::List(_) => {},
                _ => {
                    let field = entries[k].0.clone();
                    let err = MetaError::SchemaError { subject: path, field };
                    proof {
                        assert(es[k as int].1 == value_model(entries@[k as int].1));
                        assert(value_items(es[k as int].1) is None);
                        assert(resolve_failure(frags, seed, visited, vq[cursor as int], err));
                    }
                    return Err(err);
                },
            }
            k = k + 1;
        }
        proof {
            assert(entries_ok(es));
            assert(good_fragment(frags, vq[cursor as int]));
        }

        let ghost ms_pre = managers@;
        merge_fragment(managers, &mut queue, &entries, &imports_str);
        // The fragment is fully merged: fold it into the visited history.
        proof {
            let q = views_of(queue@);
            let ms = managers@;
            assert(q.len() >= vq.len());
            assert(q[cursor as int] == vq[cursor as int]);
            assert(q[0] == vq[0]);
            assert(q.no_duplicates());
            assert(q.take(cursor + 1) =~= visited.push(vq[cursor as int]));
            assert forall|i: int| 0 <= i < cursor + 1 implies good_fragment(
                frags,
                #[trigger] q[i],
            ) by {
                assert(q[i] == vq[i]);
            }
            // Every worklist entry is still reachable from a processed one.
            assert forall|i: int| 1 <= i < q.len() implies exists|j: int|
                0 <= j < i && j < cursor + 1 && is_import(
                    frag_entries(frags, q[j])->Some_0,
                    #[trigger] q[i],
                ) by {
                if i < vq.len() {
                    let j = choose|j: int|
                        0 <= j < i && j < cursor as int && is_import(
                            frag_entries(frags, vq[j])->Some_0,
                            vq[i],
                        );
                    assert(q[j] == vq[j] && q[i] == vq[i]);
                    assert(is_import(frag_entries(frags, q[j])->Some_0, q[i]));
                } else {
                    assert(is_import(es, q[i]));
                    assert(frag_entries(frags, q[cursor as int]) == Some(es));
                    assert(is_import(frag_entries(frags, q[cursor as int])->Some_0, q[i]));
                }
            }
            // Imports of processed fragments are all on the worklist.
            assert forall|j: int, p: Seq<char>|
                0 <= j < cursor + 1 && #[trigger] is_import(
                    frag_entries(frags, q[j])->Some_0,
                    p,
                ) implies q.contains(p) by {
                assert(q[j] == vq[j]);
                if j < cursor as int {
                    assert(is_import(frag_entries(frags, vq[j])->Some_0, p));
                    assert(vq.contains(p));
                    let w = choose|w: int| 0 <= w < vq.len() && vq[w] == p;
                    assert(q[w] == p);
                } else {
                    assert(frag_entries(frags, q[j]) == Some(es));
                    assert(is_import(es, p));
                }
            }
            // The desired sets now also carry this fragment's items.
            assert forall|m: int| 0 <= m < ms0.len() implies views_of(
                #[trigger] ms[m].items@,
            ).to_set() == views_of(ms0[m].items@).to_set().union(
                visited_items_for(frags, q.take(cursor + 1), ms0[m].name@),
            ) by {
                let name = ms0[m].name@;
                assert(same_but_items(ms_pre[m], ms0[m]));
                assert(ms_pre[m].name@ == name);
                lemma_visited_push(frags, visited, vq[cursor as int], name);
                assert(views_of(ms_pre[m].items@).to_set() == views_of(
                    ms0[m].items@,
                ).to_set().union(visited_items_for(frags, visited, name)));
                assert(views_of(ms[m].items@).to_set() == views_of(
                    ms_pre[m].items@,
                ).to_set().union(items_for(es, name)));
                assert(views_of(ms0[m].items@).to_set().union(
                    visited_items_for(frags, visited, name),
                ).union(items_for(es, name)) =~= views_of(ms0[m].items@).to_set().union(
                    visited_items_for(frags, visited.push(vq[cursor as int]), name),
                ));
            }
            assert forall|m: int| 0 <= m < ms0.len() implies same_but_items(
                #[trigger] ms[m],
                ms0[m],
            ) by {
                assert(same_but_items(ms[m], ms_pre[m]));
                assert(same_but_items(ms_pre[m], ms0[m]));
            }
            assert forall|m: int|
                0 <= m < ms0.len() && views_of(ms0[m].items@).no_duplicates() implies views_of(
                #[trigger] ms[m].items@,
            ).no_duplicates() by {
                assert(views_of(ms_pre[m].items@).no_duplicates());
            }
            // The processed paths stay within the registered fragments.
            let t = q.take(cursor + 1);
            assert forall|i: int, j: int|
                0 <= i < t.len() && 0 <= j < t.len() && i != j implies t[i] != t[j] by {
                assert(t[i] == q[i] && t[j] == q[j]);
            }
            assert forall|i: int| 0 <= i < t.len() implies frag_lookup(
                frags,
                #[trigger] t[i],
            ) is Some by {
                assert(t[i] == q[i]);
                assert(good_fragment(frags, q[i]));
            }
            lemma_distinct_paths_bound(frags, t);
        }
        cursor = cursor + 1;
    }
    proof {
        let visited = views_of(queue@);
        lemma_prefix_trace(frags, seed, visited, cursor as int);
        assert(visited.take(cursor as int) =~= visited);
        assert(resolve_success(frags, seed, visited));
    }
    Ok(())
}

/// Resolution processes each fragment at most once: every resolution
/// history is free of duplicates.  This is what makes a fragment graph with
/// import cycles safe -- the second visit never happens -- and, together
/// with the worklist loop's explicit bound, is why resolution terminates.
pub proof fn lemma_fragment_processed_once(
    frags: Seq<(String, String)>,
    seed: Seq<char>,
    visited: Seq<Seq<char>>,
)
    requires
        resolution_trace(frags, seed, visited),
    ensures
        visited.no_duplicates(),
{
}

/// Every fragment of one complete resolution is visited by any other.
proof fn lemma_trace_subset(
    frags: Seq<(String, String)>,
    seed: Seq<char>,
    v1: Seq<Seq<char>>,
    v2: Seq<Seq<char>>,
    i: int,
)
    requires
        resolution_trace(frags, seed, v1),
        resolve_success(frags, seed, v2),
        0 <= i < v1.len(),
    ensures
        v2.contains(v1[i]),
    decreases i,
{
    if i == 0 {
        assert(v1[0] == seed && v2[0] == seed);
        assert(v2.contains(v2[0]));
    } else {
        let j = choose|j: int|
            0 <= j < i && is_import(frag_entries(frags, v1[j])->Some_0, v1[i]);
        lemma_trace_subset(frags, seed, v1, v2, j);
        let w = choose|w: int| 0 <= w < v2.len() && v2[w] == v1[j];
        assert(is_import(frag_entries(frags, v2[w])->Some_0, v1[i]));
    }
}

/// For one fragment store and one seed, any two complete resolutions visit
/// exactly the same fragments, whatever order they visited them in.
pub proof fn lemma_resolution_visits_same(
    frags: Seq<(String, String)>,
    seed: Seq<char>,
    v1: Seq<Seq<char>>,
    v2: Seq<Seq<char>>,
)
    requires
        resolve_success(frags, seed, v1),
        resolve_success(frags, seed, v2),
    ensures
        forall|p: Seq<char>| v1.contains(p) <==> v2.contains(p),
{
    assert forall|p: Seq<char>| v1.contains(p) implies v2.contains(p) by {
        let i = choose|i: int| 0 <= i < v1.len() && v1[i] == p;
        lemma_trace_subset(frags, seed, v1, v2, i);
    }
    assert forall|p: Seq<char>| v2.contains(p) implies v1.contains(p) by {
        let i = choose|i: int| 0 <= i < v2.len() && v2[i] == p;
        lemma_trace_subset(frags, seed, v2, v1, i);
    }
}

/// The items two resolution histories contribute to a manager agree as soon
/// as the histories visit the same fragments, whatever the order.
pub proof fn lemma_items_depend_on_visited_set(
    frags: Seq<(String, String)>,
    v1: Seq<Seq<char>>,
    v2: Seq<Seq<char>>,
    name: Seq<char>,
)
    requires
        forall|p: Seq<char>| v1.contains(p) <==> v2.contains(p),
    ensures
        visited_items_for(frags, v1, name) == visited_items_for(frags, v2, name),
{
    assert forall|it: Seq<char>| visited_items_for(frags, v1, name).contains(it) implies
        visited_items_for(frags, v2, name).contains(it) by {
        let i = choose|i: int|
            0 <= i < v1.len() && items_for(frag_entries(frags, v1[i])->Some_0, name).contains(it);
        assert(v1.contains(v1[i]));
        let w = choose|w: int| 0 <= w < v2.len() && v2[w] == v1[i];
        assert(items_for(frag_entries(frags, v2[w])->Some_0, name).contains(it));
    }
    assert forall|it: Seq<char>| visited_items_for(frags, v2, name).contains(it) implies
        visited_items_for(frags, v1, name).contains(it) by {
        let i = choose|i: int|
            0 <= i < v2.len() && items_for(frag_entries(frags, v2[i])->Some_0, name).contains(it);
        assert(v2.contains(v2[i]));
        let w = choose|w: int| 0 <= w < v1.len() && v1[w] == v2[i];
        assert(items_for(frag_entries(frags, v1[w])->Some_0, name).contains(it));
    }
    assert(visited_items_for(frags, v1, name) =~= visited_items_for(frags, v2, name));
}

/// The final desired-item sets do not depend on the order fragments were
/// visited in: any two complete resolutions of one fragment store from one
/// seed contribute exactly the same items to every manager name.
pub proof fn lemma_resolution_order_independent(
    frags: Seq<(String, String)>,
    seed: Seq<char>,
    v1: Seq<Seq<char>>,
    v2: Seq<Seq<char>>,
    name: Seq<char>,
)
    requires
        resolve_success(frags, seed, v1),
        resolve_success(frags, seed, v2),
    ensures
        visited_items_for(frags, v1, name) == visited_items_for(frags, v2, name),
{
    lemma_resolution_visits_same(frags, seed, v1, v2);
    lemma_items_depend_on_visited_set(frags, v1, v2, name);
}

/// The items entry `k` alone declares for `name`.
spec fn entry_items(es: Seq<(Seq<char>, TomlValueModel)>, k: int, name: Seq<char>) -> Set<
    Seq<char>,
> {
    if name == imports_key() {
        Set::empty()
    } else {
        Set::new(|it: Seq<char>| entry_declares(es, k, name, it))
    }
}

/// One more entry extends a prefix's items by exactly that entry's items.
proof fn lemma_items_for_prefix_step(es: Seq<(Seq<char>, TomlValueModel)>, k: int, name: Seq<char>)
    requires
        0 <= k,
    ensures
        items_for_prefix(es, k + 1, name) == items_for_prefix(es, k, name).union(
            entry_items(es, k, name),
        ),
{
    if name == imports_key() {
        assert(items_for_prefix(es, k + 1, name) =~= items_for_prefix(es, k, name).union(
            entry_items(es, k, name),
        ));
    } else {
        assert forall|it: Seq<char>| items_for_prefix(es, k + 1, name).contains(it) implies
            items_for_prefix(es, k, name).union(entry_items(es, k, name)).contains(it) by {
            let kk = choose|kk: int| kk < k + 1 && entry_declares(es, kk, name, it);
            if kk == k {
                assert(entry_items(es, k, name).contains(it));
            } else {
                assert(items_for_prefix(es, k, name).contains(it));
            }
        }
        assert forall|it: Seq<char>|
            items_for_prefix(es, k, name).union(entry_items(es, k, name)).contains(it) implies
            items_for_prefix(es, k + 1, name).contains(it) by {
            if items_for_prefix(es, k, name).contains(it) {
                let kk = choose|kk: int| kk < k && entry_declares(es, kk, name, it);
                assert(kk < k + 1 && entry_declares(es, kk, name, it));
            } else {
                assert(entry_declares(es, k, name, it));
            }
        }
        assert(items_for_prefix(es, k + 1, name) =~= items_for_prefix(es, k, name).union(
            entry_items(es, k, name),
        ));
    }
}

/// The prefix that spans the whole table declares the table's items.
proof fn lemma_items_for_prefix_all(es: Seq<(Seq<char>, TomlValueModel)>, name: Seq<char>)
    ensures
        items_for_prefix(es, es.len() as int, name) == items_for(es, name),
{
    if name != imports_key() {
        assert forall|it: Seq<char>| items_for(es, name).contains(it) implies items_for_prefix(
            es,
            es.len() as int,
            name,
        ).contains(it) by {
            let kk = choose|kk: int| entry_declares(es, kk, name, it);
            assert(kk < es.len() && entry_declares(es, kk, name, it));
        }
        assert forall|it: Seq<char>| items_for_prefix(es, es.len() as int, name).contains(it)
            implies items_for(es, name).contains(it) by {
            let kk = choose|kk: int| kk < es.len() && entry_declares(es, kk, name, it);
            assert(entry_declares(es, kk, name, it));
        }
    }
    assert(items_for_prefix(es, es.len() as int, name) =~= items_for(es, name));
}

/// Appends the values that are not yet on the worklist.
fn enqueue_unseen(queue: &mut Vec<String>, vals: &Vec<String>)
    ensures
        final(queue)@.len() >= old(queue)@.len(),
        forall|i: int|
            0 <= i < old(queue)@.len() ==> #[trigger] views_of(final(queue)@)[i] == views_of(
                old(queue)@,
            )[i],
        forall|i: int|
            old(queue)@.len() <= i < final(queue)@.len() ==> views_of(vals@).contains(
                #[trigger] views_of(final(queue)@)[i],
            ),
        forall|p: Seq<char>| views_of(vals@).contains(p) ==> views_of(final(queue)@).contains(p),
        views_of(old(queue)@).no_duplicates() ==> views_of(final(queue)@).no_duplicates(),
{
    let mut v: usize = 0;
    proof {
        assert(views_of(vals@).take(0) =~= Seq::<Seq<char>>::empty());
    }
    while v < vals.len()
        invariant
            v <= vals@.len(),
            queue@.len() >= old(queue)@.len(),
            forall|i: int|
                0 <= i < old(queue)@.len() ==> #[trigger] views_of(queue@)[i] == views_of(
                    old(queue)@,
                )[i],
            forall|i: int|
                old(queue)@.len() <= i < queue@.len() ==> views_of(vals@).contains(
                    #[trigger] views_of(queue@)[i],
                ),
            forall|p: Seq<char>|
                views_of(vals@).take(v as int).contains(p) ==> views_of(queue@).contains(p),
            views_of(old(queue)@).no_duplicates() ==> views_of(queue@).no_duplicates(),
        decreases vals@.len() - v,
    {
        if !contains_string(queue, &vals[v]) {
            let item = vals[v].clone();
            proof {
                let q1 = views_of(queue@);
                assert(views_of(queue@.push(item)) =~= q1.push(item@));
                assert(views_of(vals@)[v as int] == item@);
                if q1.no_duplicates() {
                    assert(q1.push(item@).no_duplicates());
                }
            }
            queue.push(item);
        }
        proof {
            let vs = views_of(vals@);
            assert(vs.take(v + 1) =~= vs.take(v as int).push(vs[v as int]));
            assert(views_of(queue@).contains(vs[v as int]));
        }
        v = v + 1;
    }
    proof {
        assert(views_of(vals@).take(vals@.len() as int) =~= views_of(vals@));
    }
}

/// Inserts the values into every manager whose name equals `key`.
fn insert_for_key(managers: &mut Vec<Manager>, key: &String, vals: &Vec<String>)
    ensures
        final(managers)@.len() == old(managers)@.len(),
        forall|m: int|
            0 <= m < old(managers)@.len() ==> same_but_items(
                #[trigger] final(managers)@[m],
                old(managers)@[m],
            ),
        forall|m: int|
            0 <= m < old(managers)@.len() && old(managers)@[m].name@ == key@ ==> views_of(
                #[trigger] final(managers)@[m].items@,
            ).to_set() == views_of(old(managers)@[m].items@).to_set().union(
                views_of(vals@).to_set(),
            ),
        forall|m: int|
            0 <= m < old(managers)@.len() && old(managers)@[m].name@ != key@
                ==> #[trigger] final(managers)@[m].items == old(managers)@[m].items,
        forall|m: int|
            0 <= m < old(managers)@.len() && views_of(old(managers)@[m].items@).no_duplicates()
                ==> views_of(#[trigger] final(managers)@[m].items@).no_duplicates(),
{
    let mut m: usize = 0;
    while m < managers.len()
        invariant
            m <= managers@.len(),
            managers@.len() == old(managers)@.len(),
            forall|mm: int|
                0 <= mm < old(managers)@.len() ==> same_but_items(
                    #[trigger] managers@[mm],
                    old(managers)@[mm],
                ),
            forall|mm: int|
                0 <= mm < m && old(managers)@[mm].name@ == key@ ==> views_of(
                    #[trigger] managers@[mm].items@,
                ).to_set() == views_of(old(managers)@[mm].items@).to_set().union(
                    views_of(vals@).to_set(),
                ),
            forall|mm: int|
                0 <= mm < m && old(managers)@[mm].name@ != key@
                    ==> #[trigger] managers@[mm].items == old(managers)@[mm].items,
            forall|mm: int|
                m <= mm < old(managers)@.len() ==> #[trigger] managers@[mm].items == old(
                    managers,
                )@[mm].items,
            forall|mm: int|
                0 <= mm < old(managers)@.len() && views_of(
                    old(managers)@[mm].items@,
                ).no_duplicates() ==> views_of(#[trigger] managers@[mm].items@).no_duplicates(),
        decreases managers@.len() - m,
    {
        if managers[m].name.eq(key) {
            proof {
                assert(same_but_items(managers@[m as int], old(managers)@[m as int]));
                assert(old(managers)@[m as int].name@ == key@);
            }
            insert_items(&mut managers[m].items, vals);
        }
        m = m + 1;
    }
}

/// Merges one parsed, validated fragment: values under the reserved
/// `imports` key extend the worklist where not already present, every other
/// entry's values extend the desired items of every manager of that name.
#[verifier::loop_isolation(false)]
#[verifier::rlimit(60)]
fn merge_fragment(
    managers: &mut Vec<Manager>,
    queue: &mut Vec<String>,
    entries: &Vec<(String, TomlValue)>,
    imports_str: &String,
)
    requires
        imports_str@ == imports_key(),
        entries_ok(entries_model(entries@)),
    ensures
        final(queue)@.len() >= old(queue)@.len(),
        forall|i: int|
            0 <= i < old(queue)@.len() ==> #[trigger] views_of(final(queue)@)[i] == views_of(
                old(queue)@,
            )[i],
        views_of(old(queue)@).no_duplicates() ==> views_of(final(queue)@).no_duplicates(),
        forall|i: int|
            old(queue)@.len() <= i < final(queue)@.len() ==> is_import(
                entries_model(entries@),
                #[trigger] views_of(final(queue)@)[i],
            ),
        forall|p: Seq<char>|
            #[trigger] is_import(entries_model(entries@), p) ==> views_of(
                final(queue)@,
            ).contains(p),
        final(managers)@.len() == old(managers)@.len(),
        forall|m: int|
            0 <= m < old(managers)@.len() ==> same_but_items(
                #[trigger] final(managers)@[m],
                old(managers)@[m],
            ),
        forall|m: int|
            0 <= m < old(managers)@.len() ==> views_of(#[trigger] final(managers)@[m].items@)
                .to_set() == views_of(old(managers)@[m].items@).to_set().union(
                items_for(entries_model(entries@), old(managers)@[m].name@),
            ),
        forall|m: int|
            0 <= m < old(managers)@.len() && views_of(old(managers)@[m].items@).no_duplicates()
                ==> views_of(#[trigger] final(managers)@[m].items@).no_duplicates(),
{
    let ghost es = entries_model(entries@);
    let ghost ms0 = old(managers)@;
    let mut k: usize = 0;
    proof {
        assert forall|m: int| 0 <= m < ms0.len() implies views_of(
            #[trigger] managers@[m].items@,
        ).to_set() == views_of(ms0[m].items@).to_set().union(
            items_for_prefix(es, 0, ms0[m].name@),
        ) by {
            assert(items_for_prefix(es, 0, ms0[m].name@) =~= Set::<Seq<char>>::empty());
            assert(views_of(ms0[m].items@).to_set().union(Set::<Seq<char>>::empty()) =~= views_of(
                ms0[m].items@,
            ).to_set());
        }
    }
    while k < entries.len()
        invariant
            k <= entries@.len(),
            queue@.len() >= old(queue)@.len(),
            forall|i: int|
                0 <= i < old(queue)@.len() ==> #[trigger] views_of(queue@)[i] == views_of(
                    old(queue)@,
                )[i],
            views_of(old(queue)@).no_duplicates() ==> views_of(queue@).no_duplicates(),
            forall|i: int|
                old(queue)@.len() <= i < queue@.len() ==> is_import(
                    es,
                    #[trigger] views_of(queue@)[i],
                ),
            forall|p: Seq<char>|
                #[trigger] prefix_imports(es, k as int, p) ==> views_of(queue@).contains(p),
            managers@.len() == ms0.len(),
            forall|m: int| 0 <= m < ms0.len() ==> same_but_items(#[trigger] managers@[m], ms0[m]),
            forall|m: int|
                0 <= m < ms0.len() ==> views_of(#[trigger] managers@[m].items@).to_set()
                    == views_of(ms0[m].items@).to_set().union(
                    items_for_prefix(es, k as int, ms0[m].name@),
                ),
            forall|m: int|
                0 <= m < ms0.len() && views_of(ms0[m].items@).no_duplicates() ==> views_of(
                    #[trigger] managers@[m].items@,
                ).no_duplicates(),
        decreases entries@.len() - k,
    {
        let vals = match value_items_exec(&entries[k].1) {
            Some(vs) => vs,
            None => {
                proof {
                    assert(es[k as int].1 == value_model(entries@[k as int].1));
                    assert(false);
                }
                Vec::new()
            },
        };
        proof {
            assert(es[k as int].1 == value_model(entries@[k as int].1));
            assert(es[k as int].0 == entries@[k as int].0@);
            assert(value_items(es[k as int].1) == Some(views_of(vals@)));
        }
        if entries[k].0.eq(imports_str) {
            let ghost q_pre = views_of(queue@);
            enqueue_unseen(queue, &vals);
            proof {
                let q = views_of(queue@);
                assert forall|p: Seq<char>| views_of(vals@).contains(p) implies is_import(
                    es,
                    p,
                ) by {
                    assert(entry_declares(es, k as int, imports_key(), p));
                }
                assert forall|i: int| old(queue)@.len() <= i < q.len() implies is_import(
                    es,
                    #[trigger] q[i],
                ) by {
                    if i < q_pre.len() {
                        assert(q[i] == q_pre[i]);
                    } else {
                        assert(views_of(vals@).contains(q[i]));
                    }
                }
                assert forall|p: Seq<char>| #[trigger] prefix_imports(es, k + 1, p) implies
                    q.contains(p) by {
                    let kk = choose|kk: int| kk < k + 1 && entry_declares(es, kk, imports_key(), p);
                    if kk == k {
                        assert(views_of(vals@).contains(p));
                    } else {
                        assert(prefix_imports(es, k as int, p));
                        assert(q_pre.contains(p));
                        let w = choose|w: int| 0 <= w < q_pre.len() && q_pre[w] == p;
                        assert(q[w] == p);
                    }
                }
                assert forall|m: int| 0 <= m < ms0.len() implies views_of(
                    #[trigger] managers@[m].items@,
                ).to_set() == views_of(ms0[m].items@).to_set().union(
                    items_for_prefix(es, k + 1, ms0[m].name@),
                ) by {
                    let name = ms0[m].name@;
                    lemma_items_for_prefix_step(es, k as int, name);
                    assert(entry_items(es, k as int, name) =~= Set::<Seq<char>>::empty());
                    assert(items_for_prefix(es, k as int, name).union(Set::<Seq<char>>::empty())
                        =~= items_for_prefix(es, k as int, name));
                }
            }
        } else {
            let ghost ms_pre = managers@;
            insert_for_key(managers, &entries[k].0, &vals);
            proof {
                let ms = managers@;
                let key = es[k as int].0;
                assert(key != imports_key());
                assert forall|m: int| 0 <= m < ms0.len() implies same_but_items(
                    #[trigger] ms[m],
                    ms0[m],
                ) by {
                    assert(same_but_items(ms[m], ms_pre[m]));
                    assert(same_but_items(ms_pre[m], ms0[m]));
                }
                assert forall|m: int| 0 <= m < ms0.len() implies views_of(
                    #[trigger] ms[m].items@,
                ).to_set() == views_of(ms0[m].items@).to_set().union(
                    items_for_prefix(es, k + 1, ms0[m].name@),
                ) by {
                    let name = ms0[m].name@;
                    assert(ms_pre[m].name@ == name);
                    lemma_items_for_prefix_step(es, k as int, name);
                    if name == key {
                        assert(entry_items(es, k as int, name) =~= views_of(vals@).to_set()) by {
                            assert forall|it: Seq<char>|
                                views_of(vals@).to_set().contains(it) implies entry_items(
                                es,
                                k as int,
                                name,
                            ).contains(it) by {
                                assert(entry_declares(es, k as int, name, it));
                            }
                        }
                        assert(views_of(ms[m].items@).to_set() == views_of(
                            ms_pre[m].items@,
                        ).to_set().union(views_of(vals@).to_set()));
                        assert(views_of(ms0[m].items@).to_set().union(
                            items_for_prefix(es, k as int, name),
                        ).union(views_of(vals@).to_set()) =~= views_of(ms0[m].items@).to_set()
                            .union(
                            items_for_prefix(es, k as int, name).union(
                                entry_items(es, k as int, name),
                            ),
                        ));
                    } else {
                        assert(ms[m].items == ms_pre[m].items);
                        assert(entry_items(es, k as int, name) =~= Set::<Seq<char>>::empty());
                        assert(items_for_prefix(es, k as int, name).union(
                            Set::<Seq<char>>::empty(),
                        ) =~= items_for_prefix(es, k as int, name));
                    }
                }
                assert forall|m: int|
                    0 <= m < ms0.len() && views_of(ms0[m].items@).no_duplicates() implies views_of(
                    #[trigger] ms[m].items@,
                ).no_duplicates() by {
                    assert(views_of(ms_pre[m].items@).no_duplicates());
                }
                assert forall|p: Seq<char>| #[trigger] prefix_imports(es, k + 1, p) implies
                    views_of(queue@).contains(p) by {
                    let kk = choose|kk: int| kk < k + 1 && entry_declares(es, kk, imports_key(), p);
                    assert(kk != k);
                    assert(prefix_imports(es, k as int, p));
                }
            }
        }
        k = k + 1;
    }
    proof {
        assert forall|p: Seq<char>| #[trigger] is_import(es, p) implies views_of(
            queue@,
        ).contains(p) by {
            let kk = choose|kk: int| entry_declares(es, kk, imports_key(), p);
            assert(kk < entries@.len());
            assert(prefix_imports(es, entries@.len() as int, p));
        }
        assert forall|m: int| 0 <= m < ms0.len() implies views_of(
            #[trigger] managers@[m].items@,
        ).to_set() == views_of(ms0[m].items@).to_set().union(
            items_for(es, ms0[m].name@),
        ) by {
            lemma_items_for_prefix_all(es, ms0[m].name@);
        }
    }
}

/// Finds the first fragment registered under `path`.
fn lookup_fragment<'a>(frags: &'a Vec<(String, String)>, path: &String) -> (r: Option<&'a String>)
    ensures
        match r {
            Some(t) => frag_lookup(frags@, path@) == Some(t@),
            None => frag_lookup(frags@, path@) is None,
        },
{
    let mut k: usize = 0;
    proof {
        assert(frags@.skip(0) =~= frags@);
    }
    while k < frags.len()
        invariant
            k <= frags@.len(),
            frag_lookup(frags@, path@) == frag_lookup(frags@.skip(k as int), path@),
        decreases frags@.len() - k,
    {
        proof {
            let suf = frags@.skip(k as int);
            assert(suf[0] == frags@[k as int]);
            assert(suf.drop_first() =~= frags@.skip(k + 1));
        }
        if frags[k].0.eq(path) {
            return Some(&frags[k].1);
        }
        k = k + 1;
    }
    proof {
        assert(frags@.skip(frags@.len() as int) =~= Seq::<(String, String)>::empty());
    }
    None
}

/// The items a parsed value contributes, as owned strings.
fn value_items_exec(v: &TomlValue) -> (r: Option<Vec<String>>)
    ensures
        match r {
            Some(xs) => value_items(value_model(*v)) == Some(views_of(xs@)),
            None => value_items(value_model(*v)) is None,
        },
{
    match v {
        TomlValue::Text(s) => {
            let xs = vec![s.clone()];
            proof {
                assert(views_of(xs@) =~= seq![s@]);
            }
            Some(xs)
        },
        TomlValue::List(items) => {
            let mut xs: Vec<String> = Vec::new();
            let mut k: usize = 0;
            while k < items.len()
                invariant
                    k <= items@.len(),
                    views_of(xs@) =~= items@.map_values(|x: String| x@).take(k as int),
                decreases items@.len() - k,
            {
                let x = items[k].clone();
                proof {
                    assert(views_of(xs@.push(x)) =~= views_of(xs@).push(x@));
                    let vs = items@.map_values(|y: String| y@);
                    assert(vs.take(k + 1) =~= vs.take(k as int).push(vs[k as int]));
                }
                xs.push(x);
                k = k + 1;
            }
            proof {
                let vs = items@.map_values(|y: String| y@);
                assert(vs.take(items@.len() as int) =~= vs);
            }
            Some(xs)
        },
        TomlValue::Flag(_) => None,
        TomlValue::Other => None,
    }
}

} // verus!
