//! The manager registry: turns the manager definition files into `Manager`
//! values, applies the command-line selection, and arranges the result in
//! the canonical order given by the order file.  That order is the single
//! sequencing every later phase follows.

use vstd::prelude::*;

use crate::errors::MetaError;
use crate::manager::Manager;
use crate::strings::{contains_string, split_nonempty, split_nonempty_seq, str_eq, views_of};
use crate::toml_input::{
    entries_model, parse_toml_table, toml_table_of, value_model, TomlValue, TomlValueModel,
};

verus! {

broadcast use vstd::seq_lib::group_seq_properties;

/// The fields a manager definition may carry; anything else is rejected.
pub open spec fn known_field(key: Seq<char>) -> bool {
    ||| key == "add"@
    ||| key == "remove"@
    ||| key == "list"@
    ||| key == "upgrade"@
    ||| key == "remove_then_add"@
    ||| key == "items_separator"@
}

/// The first value stored under `key`, if any.
pub open spec fn lookup_entry(es: Seq<(Seq<char>, TomlValueModel)>, key: Seq<char>) -> Option<
    TomlValueModel,
>
    decreases es.len(),
{
    if es.len() == 0 {
        None
    } else if es[0].0 == key {
        Some(es[0].1)
    } else {
        lookup_entry(es.drop_first(), key)
    }
}

/// A well-formed manager definition: only known fields, the three command
/// templates present as strings, and the optional fields of the right type.
pub open spec fn manager_schema_ok(es: Seq<(Seq<char>, TomlValueModel)>) -> bool {
    &&& forall|k: int| 0 <= k < es.len() ==> known_field(#[trigger] es[k].0)
    &&& lookup_entry(es, "add"@) matches Some(TomlValueModel::Text(_))
    &&& lookup_entry(es, "remove"@) matches Some(TomlValueModel::Text(_))
    &&& lookup_entry(es, "list"@) matches Some(TomlValueModel::Text(_))
    &&& match lookup_entry(es, "upgrade"@) {
        None => true,
        Some(v) => v is Text,
    }
    &&& match lookup_entry(es, "remove_then_add"@) {
        None => true,
        Some(v) => v is Flag,
    }
    &&& match lookup_entry(es, "items_separator"@) {
        None => true,
        Some(v) => v is Text,
    }
}

/// The field named `key` violates the schema: it is present but unknown, a
/// required template that is missing or not a string, or an optional field
/// of the wrong type.
pub open spec fn field_problem(es: Seq<(Seq<char>, TomlValueModel)>, key: Seq<char>) -> bool {
    ||| (exists|k: int| 0 <= k < es.len() && #[trigger] es[k].0 == key && !known_field(key))
    ||| (key == "add"@ && !(lookup_entry(es, key) matches Some(TomlValueModel::Text(_))))
    ||| (key == "remove"@ && !(lookup_entry(es, key) matches Some(TomlValueModel::Text(_))))
    ||| (key == "list"@ && !(lookup_entry(es, key) matches Some(TomlValueModel::Text(_))))
    ||| (key == "upgrade"@ && (lookup_entry(es, key) matches Some(v) && !(v is Text)))
    ||| (key == "remove_then_add"@ && (lookup_entry(es, key) matches Some(v) && !(v is Flag)))
    ||| (key == "items_separator"@ && (lookup_entry(es, key) matches Some(v) && !(v is Text)))
}

/// `m` is the manager that the definition table `es` describes, under the
/// name `name`, with empty desired-item and delta sets.
pub open spec fn manager_matches(m: Manager, name: Seq<char>, es: Seq<(Seq<char>, TomlValueModel)>) -> bool {
    &&& m.name@ == name
    &&& lookup_entry(es, "add"@) == Some(TomlValueModel::Text(m.add@))
    &&& lookup_entry(es, "remove"@) == Some(TomlValueModel::Text(m.remove@))
    &&& lookup_entry(es, "list"@) == Some(TomlValueModel::Text(m.list@))
    &&& match lookup_entry(es, "upgrade"@) {
        None => m.upgrade is None,
        Some(v) => m.upgrade matches Some(u) && v == TomlValueModel::Text(u@),
    }
    &&& m.remove_then_add == (match lookup_entry(es, "remove_then_add"@) {
        Some(TomlValueModel::Flag(b)) => b,
        _ => false,
    })
    &&& match lookup_entry(es, "items_separator"@) {
        None => m.items_separator is None,
        Some(v) => m.items_separator matches Some(s) && v == TomlValueModel::Text(s@),
    }
    &&& m.items@.len() == 0
    &&& m.items_to_add@.len() == 0
    &&& m.items_to_remove@.len() == 0
}

/// Finds the first entry stored under `key`.
fn find_entry<'a>(entries: &'a Vec<(String, TomlValue)>, key: &str) -> (r: Option<&'a TomlValue>)
    ensures
        match r {
            Some(v) => lookup_entry(entries_model(entries@), key@) == Some(value_model(*v)),
            None => lookup_entry(entries_model(entries@), key@) is None,
        },
{
    let ghost es = entries_model(entries@);
    let mut k: usize = 0;
    proof {
        assert(es.skip(0) =~= es);
    }
    while k < entries.len()
        invariant
            k <= entries@.len(),
            es == entries_model(entries@),
            lookup_entry(es, key@) == lookup_entry(es.skip(k as int), key@),
        decreases entries@.len() - k,
    {
        proof {
            let suf = es.skip(k as int);
            assert(suf[0] == es[k as int]);
            assert(suf.drop_first() =~= es.skip(k + 1));
            assert(es[k as int].0 == entries@[k as int].0@);
            assert(es[k as int].1 == value_model(entries@[k as int].1));
        }
        if str_eq(entries[k].0.as_str(), key) {
            return Some(&entries[k].1);
        }
        k = k + 1;
    }
    proof {
        assert(es.skip(es.len() as int) =~= Seq::<(Seq<char>, TomlValueModel)>::empty());
    }
    None
}

/// Builds a manager from its parsed definition table, enforcing the strict
/// schema: unknown fields, missing templates and wrongly-typed values are
/// all rejected.
pub fn manager_from_entries(name: String, entries: &Vec<(String, TomlValue)>) -> (r: Result<
    Manager,
    MetaError,
>)
    ensures
        match r {
            Ok(m) => manager_schema_ok(entries_model(entries@)) && manager_matches(
                m,
                name@,
                entries_model(entries@),
            ),
            Err(e) => {
                &&& !manager_schema_ok(entries_model(entries@))
                &&& e matches MetaError::SchemaError { subject, field } && subject@ == name@
                    && field_problem(entries_model(entries@), field@)
            },
        },
{
    let ghost es = entries_model(entries@);

    // Reject unknown fields.
    let mut k: usize = 0;
    while k < entries.len()
        invariant
            k <= entries@.len(),
            es == entries_model(entries@),
            forall|i: int| 0 <= i < k ==> known_field(#[trigger] es[i].0),
        decreases entries@.len() - k,
    {
        let key = &entries[k].0;
        let known = str_eq(key.as_str(), "add") || str_eq(key.as_str(), "remove") || str_eq(
            key.as_str(),
            "list",
        ) || str_eq(key.as_str(), "upgrade") || str_eq(key.as_str(), "remove_then_add") || str_eq(
            key.as_str(),
            "items_separator",
        );
        proof {
            assert(es[k as int].0 == entries@[k as int].0@);
        }
        if !known {
            proof {
                assert(es[k as int].0 == key@ && !known_field(key@));
            }
            return Err(MetaError::SchemaError { subject: name, field: key.clone() });
        }
        k = k + 1;
    }

    let add = match find_entry(entries, "add") {
        Some(TomlValue::Text(s)) => s.clone(),
        _ => {
            return Err(MetaError::SchemaError { subject: name, field: String::from_str("add") });
        },
    };
    let remove = match find_entry(entries, "remove") {
        Some(TomlValue::Text(s)) => s.clone(),
        _ => {
            return Err(
                MetaError::SchemaError { subject: name, field: String::from_str("remove") },
            );
        },
    };
    let list = match find_entry(entries, "list") {
        Some(TomlValue::Text(s)) => s.clone(),
        _ => {
            return Err(MetaError::SchemaError { subject: name, field: String::from_str("list") });
        },
    };
    let upgrade = match find_entry(entries, "upgrade") {
        None => None,
        Some(TomlValue::Text(s)) => Some(s.clone()),
        Some(_) => {
            return Err(
                MetaError::SchemaError { subject: name, field: String::from_str("upgrade") },
            );
        },
    };
    let remove_then_add = match find_entry(entries, "remove_then_add") {
        None => false,
        Some(TomlValue::Flag(b)) => *b,
        Some(_) => {
            return Err(
                MetaError::SchemaError {
                    subject: name,
                    field: String::from_str("remove_then_add"),
                },
            );
        },
    };
    let items_separator = match find_entry(entries, "items_separator") {
        None => None,
        Some(TomlValue::Text(s)) => Some(s.clone()),
        Some(_) => {
            return Err(
                MetaError::SchemaError {
                    subject: name,
                    field: String::from_str("items_separator"),
                },
            );
        },
    };
    Ok(
        Manager {
            name,
            add,
            remove,
            list,
            upgrade,
            remove_then_add,
            items_separator,
            items: Vec::new(),
            items_to_add: Vec::new(),
            items_to_remove: Vec::new(),
        },
    )
}

/// Whether the selection keeps the manager named `name`: with no selection
/// everything is kept; with one, listed names are kept, or exactly the
/// unlisted ones when the selection is inverted.
pub open spec fn keeps(sel: Option<Vec<String>>, invert: bool, name: Seq<char>) -> bool {
    match sel {
        None => true,
        Some(list) => views_of(list@).contains(name) != invert,
    }
}

/// The definition files that the selection keeps, in their given order.
pub open spec fn kept_files(
    files: Seq<(String, String)>,
    sel: Option<Vec<String>>,
    invert: bool,
) -> Seq<(String, String)>
    decreases files.len(),
{
    if files.len() == 0 {
        Seq::empty()
    } else {
        kept_files(files.drop_last(), sel, invert) + (if keeps(sel, invert, files.last().0@) {
            seq![files.last()]
        } else {
            Seq::empty()
        })
    }
}

/// The managers named `name`, in their given order.
pub open spec fn with_name(ms: Seq<Manager>, name: Seq<char>) -> Seq<Manager>
    decreases ms.len(),
{
    if ms.len() == 0 {
        Seq::empty()
    } else {
        with_name(ms.drop_last(), name) + (if ms.last().name@ == name {
            seq![ms.last()]
        } else {
            Seq::empty()
        })
    }
}

/// The managers not named `name`, in their given order.
pub open spec fn without_name(ms: Seq<Manager>, name: Seq<char>) -> Seq<Manager>
    decreases ms.len(),
{
    if ms.len() == 0 {
        Seq::empty()
    } else {
        without_name(ms.drop_last(), name) + (if ms.last().name@ != name {
            seq![ms.last()]
        } else {
            Seq::empty()
        })
    }
}

/// The managers arranged by order-file position: for each order line in
/// turn, the managers of that name, keeping their relative order; managers
/// whose name no line carries are left over and are not part of the result.
pub open spec fn arrange(ms: Seq<Manager>, order: Seq<Seq<char>>) -> Seq<Manager>
    decreases order.len(),
{
    if order.len() == 0 {
        Seq::empty()
    } else {
        with_name(ms, order[0]) + arrange(without_name(ms, order[0]), order.drop_first())
    }
}

/// The non-empty lines of the order file.
pub open spec fn order_lines(t: Seq<char>) -> Seq<Seq<char>> {
    split_nonempty_seq(t, '\n')
}

/// A sequence of managers parsed from the kept definition files: one per
/// file, in file order, each matching its file's table under its file's
/// name.
pub open spec fn parsed_from(parsed: Seq<Manager>, kept: Seq<(String, String)>) -> bool {
    &&& parsed.len() == kept.len()
    &&& forall|i: int|
        0 <= i < kept.len() ==> manager_matches(
            #[trigger] parsed[i],
            kept[i].0@,
            toml_table_of(kept[i].1@)->Some_0,
        )
}

/// Every kept definition file parses and satisfies the manager schema.
pub open spec fn all_kept_good(kept: Seq<(String, String)>) -> bool {
    forall|i: int|
        0 <= i < kept.len() ==> ((#[trigger] toml_table_of(kept[i].1@)) matches Some(es)
            && manager_schema_ok(es))
}

/// An explicit, non-inverted selection only names managers that were found.
pub open spec fn selection_ok(
    kept: Seq<(String, String)>,
    sel: Option<Vec<String>>,
    invert: bool,
) -> bool {
    match sel {
        None => true,
        Some(list) => invert || forall|n: int|
            0 <= n < list@.len() ==> exists|j: int|
                0 <= j < kept.len() && (#[trigger] kept[j].0)@ == (#[trigger] list@[n])@,
    }
}

/// Loads the managers from the given definition files -- each a pair of the
/// manager's name and its file's text -- keeps those the selection asks for,
/// and returns them sorted by their position in the order file.  A manager
/// whose name no order line carries is a fatal ordering error; an explicitly
/// requested manager with no definition file is a fatal selection error.
#[verifier::loop_isolation(false)]
#[verifier::rlimit(60)]
pub fn load_managers(
    manager_files: &Vec<(String, String)>,
    order_text: &str,
    managers_to_load: &Option<Vec<String>>,
    non_specified: bool,
) -> (r: Result<Vec<Manager>, MetaError>)
    ensures
        ({
            let kept = kept_files(manager_files@, *managers_to_load, non_specified);
            let order = order_lines(order_text@);
            match r {
                Ok(ms) => {
                    &&& all_kept_good(kept)
                    &&& selection_ok(kept, *managers_to_load, non_specified)
                    &&& forall|i: int|
                        0 <= i < kept.len() ==> order.contains((#[trigger] kept[i].0)@)
                    &&& exists|parsed: Seq<Manager>|
                        #[trigger] parsed_from(parsed, kept) && ms@ == arrange(parsed, order)
                },
                Err(e) => match e {
                    MetaError::LoadError { path, detail: _ } => exists|i: int|
                        0 <= i < kept.len() && (#[trigger] kept[i].0)@ == path@ && toml_table_of(
                            kept[i].1@,
                        ) is None,
                    MetaError::SchemaError { subject, field } => exists|i: int|
                        0 <= i < kept.len() && (#[trigger] kept[i].0)@ == subject@ && (
                        toml_table_of(kept[i].1@) matches Some(es) && field_problem(es, field@)),
                    MetaError::SelectionError { manager } => {
                        &&& all_kept_good(kept)
                        &&& !non_specified
                        &&& *managers_to_load matches Some(list) && views_of(list@).contains(
                            manager@,
                        )
                        &&& !(exists|j: int|
                            0 <= j < kept.len() && (#[trigger] kept[j].0)@ == manager@)
                    },
                    MetaError::OrderingError { manager } => {
                        &&& all_kept_good(kept)
                        &&& selection_ok(kept, *managers_to_load, non_specified)
                        &&& exists|i: int|
                            0 <= i < kept.len() && (#[trigger] kept[i].0)@ == manager@
                        &&& !order.contains(manager@)
                    },
                    _ => false,
                },
            }
        }),
{
    let ghost all_kept = kept_files(manager_files@, *managers_to_load, non_specified);

    // Keep the files the selection asks for.
    let mut kept: Vec<(String, String)> = Vec::new();
    let mut f: usize = 0;
    proof {
        assert(manager_files@.take(0) =~= Seq::<(String, String)>::empty());
    }
    while f < manager_files.len()
        invariant
            f <= manager_files@.len(),
            kept@ == kept_files(manager_files@.take(f as int), *managers_to_load, non_specified),
        decreases manager_files@.len() - f,
    {
        let keep = match managers_to_load {
            None => true,
            Some(list) => contains_string(list, &manager_files[f].0) != non_specified,
        };
        proof {
            let pre = manager_files@.take(f as int);
            assert(manager_files@.take(f + 1) =~= pre.push(manager_files@[f as int]));
            assert(manager_files@.take(f + 1).drop_last() =~= pre);
            assert(keep == keeps(*managers_to_load, non_specified, manager_files@[f as int].0@));
        }
        if keep {
            let pair = (manager_files[f].0.clone(), manager_files[f].1.clone());
            proof {
                assert(pair == manager_files@[f as int]);
            }
            kept.push(pair);
        }
        f = f + 1;
    }
    proof {
        assert(manager_files@.take(manager_files@.len() as int) =~= manager_files@);
        assert(kept@ == all_kept);
    }

    // Parse every kept definition.
    let mut parsed: Vec<Manager> = Vec::new();
    let mut i: usize = 0;
    while i < kept.len()
        invariant
            i <= kept@.len(),
            kept@ == all_kept,
            parsed@.len() == i,
            forall|j: int|
                0 <= j < i ==> ((#[trigger] toml_table_of(all_kept[j].1@)) matches Some(es)
                    && manager_schema_ok(es)),
            forall|j: int|
                0 <= j < i ==> manager_matches(
                    #[trigger] parsed@[j],
                    all_kept[j].0@,
                    toml_table_of(all_kept[j].1@)->Some_0,
                ),
        decreases kept@.len() - i,
    {
        let name = kept[i].0.clone();
        let entries = match parse_toml_table(kept[i].1.as_str()) {
            Ok(es) => es,
            Err(detail) => {
                return Err(MetaError::LoadError { path: name, detail });
            },
        };
        let m = match manager_from_entries(name, &entries) {
            Ok(m) => m,
            Err(e) => {
                return Err(e);
            },
        };
        parsed.push(m);
        i = i + 1;
    }

    // An explicitly requested manager must have been found.
    if !non_specified {
        if let Some(list) = managers_to_load {
            let mut n: usize = 0;
            while n < list.len()
                invariant
                    n <= list@.len(),
                    kept@ == all_kept,
                    forall|nn: int|
                        0 <= nn < n ==> exists|j: int|
                            0 <= j < all_kept.len() && (#[trigger] all_kept[j].0)@ == (
                            #[trigger] list@[nn])@,
                decreases list@.len() - n,
            {
                let mut found = false;
                let mut j: usize = 0;
                while j < kept.len()
                    invariant
                        j <= kept@.len(),
                        kept@ == all_kept,
                        found ==> exists|jj: int|
                            0 <= jj < all_kept.len() && (#[trigger] all_kept[jj].0)@
                                == list@[n as int]@,
                        !found ==> forall|jj: int|
                            0 <= jj < j ==> (#[trigger] all_kept[jj].0)@ != list@[n as int]@,
                    decreases kept@.len() - j,
                {
                    if kept[j].0.eq(&list[n]) {
                        found = true;
                        proof {
                            assert((all_kept[j as int].0)@ == list@[n as int]@);
                        }
                    }
                    j = j + 1;
                }
                if !found {
                    proof {
                        assert(views_of(list@)[n as int] == list@[n as int]@);
                        assert(views_of(list@).contains(list@[n as int]@));
                    }
                    return Err(MetaError::SelectionError { manager: list[n].clone() });
                }
                proof {
                    assert(views_of(list@)[n as int] == list@[n as int]@);
                }
                n = n + 1;
            }
        }
    }

    // Arrange by order-file position.
    let ghost parsed0 = parsed@;
    let order = split_nonempty(order_text, '\n');
    let ghost ord = order_lines(order_text@);
    proof {
        assert(views_of(order@) == ord);
        assert(ord.skip(0) =~= ord);
    }
    let mut out: Vec<Manager> = Vec::new();
    let mut t: usize = 0;
    proof {
        assert(ord.skip(0) =~= ord);
        assert(ord.take(0) =~= Seq::<Seq<char>>::empty());
        assert(out@ + arrange(parsed@, ord) =~= arrange(parsed0, ord));
    }
    while t < order.len()
        invariant
            t <= order@.len(),
            views_of(order@) == ord,
            out@ + arrange(parsed@, ord.skip(t as int)) == arrange(parsed0, ord),
            forall|x: int| 0 <= x < out@.len() ==> ord.contains((#[trigger] out@[x]).name@),
            forall|x: Manager|
                parsed0.contains(x) ==> #[trigger] out@.contains(x) || parsed@.contains(x),
            forall|x: int|
                0 <= x < parsed@.len() ==> !ord.take(t as int).contains(
                    (#[trigger] parsed@[x]).name@,
                ),
            forall|j: int|
                0 <= j < parsed@.len() ==> exists|i: int|
                    0 <= i < all_kept.len() && (#[trigger] parsed@[j]).name@ == all_kept[i].0@,
        decreases order@.len() - t,
    {
        let ghost o = ord[t as int];
        let ghost rem0 = parsed@;
        proof {
            assert(views_of(order@)[t as int] == order@[t as int]@);
            assert(ord.skip(t as int)[0] == o);
            assert(ord.skip(t as int).drop_first() =~= ord.skip(t + 1));
            assert(rem0.take(0) =~= Seq::<Manager>::empty());
        }
        let mut taken: Vec<Manager> = Vec::new();
        let mut rest: Vec<Manager> = Vec::new();
        let ghost mut cnt: int = 0;
        while parsed.len() > 0
            invariant
                0 <= cnt <= rem0.len(),
                parsed@ == rem0.skip(cnt),
                taken@ == with_name(rem0.take(cnt), o),
                rest@ == without_name(rem0.take(cnt), o),
                forall|x: int| 0 <= x < taken@.len() ==> (#[trigger] taken@[x]).name@ == o,
                forall|x: Manager|
                    rem0.take(cnt).contains(x) ==> #[trigger] taken@.contains(x)
                        || rest@.contains(x),
                forall|x: int| 0 <= x < rest@.len() ==> (#[trigger] rest@[x]).name@ != o,
                forall|x: int|
                    0 <= x < rest@.len() ==> !ord.take(t as int).contains(
                        (#[trigger] rest@[x]).name@,
                    ),
                forall|x: int|
                    0 <= x < rest@.len() ==> exists|i: int|
                        0 <= i < all_kept.len() && (#[trigger] rest@[x]).name@ == all_kept[i].0@,
            decreases parsed@.len(),
        {
            let m = parsed.remove(0);
            proof {
                assert(rem0.skip(cnt)[0] == rem0[cnt]);
                assert(m == rem0[cnt]);
                assert(rem0.skip(cnt).remove(0) =~= rem0.skip(cnt + 1));
                assert(rem0.take(cnt + 1) =~= rem0.take(cnt).push(rem0[cnt]));
                assert(rem0.take(cnt + 1).drop_last() =~= rem0.take(cnt));
                assert(!ord.take(t as int).contains(rem0[cnt].name@));
            }
            if str_eq(m.name.as_str(), order[t].as_str()) {
                proof {
                    assert(m.name@ == o);
                    assert(taken@.push(m) =~= taken@ + seq![m]);
                }
                taken.push(m);
            } else {
                proof {
                    assert(m.name@ != o);
                    assert(rest@.push(m) =~= rest@ + seq![m]);
                }
                rest.push(m);
            }
            proof {
                cnt = cnt + 1;
            }
        }
        proof {
            assert(rem0.take(cnt) =~= rem0);
            assert(taken@ == with_name(rem0, o));
            assert(rest@ == without_name(rem0, o));
        }
        let ghost out_pre = out@;
        let ghost taken0 = taken@;
        let ghost rest0 = rest@;
        out.append(&mut taken);
        parsed = rest;
        proof {
            assert(out@ == out_pre + with_name(rem0, o));
            assert(arrange(rem0, ord.skip(t as int)) == with_name(rem0, o) + arrange(
                without_name(rem0, o),
                ord.skip(t + 1),
            ));
            assert((out_pre + with_name(rem0, o)) + arrange(without_name(rem0, o), ord.skip(t + 1))
                =~= out_pre + (with_name(rem0, o) + arrange(without_name(rem0, o), ord.skip(t + 1))));
            assert(ord.contains(o));
            assert forall|x: Manager| parsed0.contains(x) implies #[trigger] out@.contains(x)
                || parsed@.contains(x) by {
                if out_pre.contains(x) {
                    let w = choose|w: int| 0 <= w < out_pre.len() && out_pre[w] == x;
                    assert(out@[w] == x);
                } else if rem0.contains(x) {
                    assert(taken0.contains(x) || rest0.contains(x));
                    if taken0.contains(x) {
                        let w = choose|w: int| 0 <= w < taken0.len() && taken0[w] == x;
                        assert(out@[out_pre.len() + w] == x);
                    }
                }
            }
            assert forall|x: int|
                0 <= x < parsed@.len() implies !ord.take(t + 1).contains(
                (#[trigger] parsed@[x]).name@,
            ) by {
                assert(ord.take(t + 1) =~= ord.take(t as int).push(o));
                assert(parsed@[x].name@ != o);
            }
        }
        t = t + 1;
    }
    proof {
        assert(ord.skip(order@.len() as int) =~= Seq::<Seq<char>>::empty());
        assert(out@ + Seq::<Manager>::empty() =~= out@);
        assert(ord.take(order@.len() as int) =~= ord);
    }
    if parsed.len() > 0 {
        let manager = parsed[0].name.clone();
        proof {
            assert(!ord.contains(parsed@[0].name@));
        }
        return Err(MetaError::OrderingError { manager });
    }
    proof {
        assert(parsed_from(parsed0, all_kept));
        assert(out@ == arrange(parsed0, ord));
        assert forall|i: int| 0 <= i < all_kept.len() implies ord.contains(
            (#[trigger] all_kept[i].0)@,
        ) by {
            assert(manager_matches(parsed0[i], all_kept[i].0@, toml_table_of(all_kept[i].1@)->Some_0));
            assert(parsed0.contains(parsed0[i]));
            assert(out@.contains(parsed0[i]));
            let w = choose|w: int| 0 <= w < out@.len() && out@[w] == parsed0[i];
            assert(ord.contains(out@[w].name@));
        }
    }
    Ok(out)
}

} // verus!
