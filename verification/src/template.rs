//! The command templater: a pure function from a template, an item list and a
//! separator to the ordered sequence of concrete command strings.

use vstd::prelude::*;

use crate::errors::MetaError;
use crate::strings::{
    contains_str, contains_token, count_char, join_seq, join_strings, lemma_count_char_zero,
    lemma_replace_single_marker, lemma_replace_single_occurrence, replace_all, replace_seq,
    token_at, views_of,
};

verus! {

/// The `<item>` placeholder: the template is applied once per item.
pub open spec fn item_token() -> Seq<char> {
    seq!['<', 'i', 't', 'e', 'm', '>']
}

/// The `<items>` placeholder: the template is applied once to the joined
/// batch.
pub open spec fn items_token() -> Seq<char> {
    seq!['<', 'i', 't', 'e', 'm', 's', '>']
}

/// What rendering a template yields: one command per item for an `<item>`
/// template, a single batched command for an `<items>` template, the template
/// verbatim when it holds no placeholder and an item-free command is allowed,
/// and nothing at all when the template is ambiguous or lacks a required
/// placeholder.
pub open spec fn render_spec(
    t: Seq<char>,
    items: Seq<Seq<char>>,
    sep: Seq<char>,
    allow_no_fmt: bool,
) -> Option<Seq<Seq<char>>> {
    let has_item = contains_token(t, item_token());
    let has_items = contains_token(t, items_token());
    if has_item && has_items {
        None
    } else if has_item {
        Some(Seq::new(items.len(), |i: int| replace_seq(t, item_token(), items[i])))
    } else if has_items {
        Some(seq![replace_seq(t, items_token(), join_seq(items, sep))])
    } else if allow_no_fmt {
        Some(seq![t])
    } else {
        None
    }
}

/// Renders a format command containing `<item>` or `<items>` with the given
/// items.  Fails when the template holds both placeholders, or neither while
/// one is required.
pub fn fmt_command(
    format_command: &str,
    items: &Vec<String>,
    items_separator: &str,
    allow_no_fmt: bool,
) -> (r: Result<Vec<String>, MetaError>)
    ensures
        match r {
            Ok(cmds) => render_spec(
                format_command@,
                views_of(items@),
                items_separator@,
                allow_no_fmt,
            ) == Some(views_of(cmds@)),
            Err(e) => {
                &&& render_spec(
                    format_command@,
                    views_of(items@),
                    items_separator@,
                    allow_no_fmt,
                ) is None
                &&& e matches MetaError::TemplateError { template, ambiguous }
                &&& (e matches MetaError::TemplateError { template, .. } ==> template@
                    == format_command@)
                &&& (e matches MetaError::TemplateError { ambiguous, .. } ==> ambiguous == (
                contains_token(format_command@, item_token()) && contains_token(
                    format_command@,
                    items_token(),
                )))
            },
        },
{
    let item_lit = "<item>";
    let items_lit = "<items>";
    proof {
        reveal_strlit("<item>");
        reveal_strlit("<items>");
        assert(item_lit@ =~= item_token());
        assert(items_lit@ =~= items_token());
    }
    let has_item = contains_str(format_command, item_lit);
    let has_items = contains_str(format_command, items_lit);
    if has_item && has_items {
        Err(MetaError::TemplateError { template: String::from_str(format_command), ambiguous: true })
    } else if has_item {
        let mut cmds: Vec<String> = Vec::new();
        let mut k: usize = 0;
        let ghost goal = Seq::new(
            views_of(items@).len(),
            |i: int| replace_seq(format_command@, item_token(), views_of(items@)[i]),
        );
        while k < items.len()
            invariant
                k <= items@.len(),
                goal == Seq::new(
                    views_of(items@).len(),
                    |i: int| replace_seq(format_command@, item_token(), views_of(items@)[i]),
                ),
                item_lit@ == item_token(),
                views_of(cmds@) =~= goal.take(k as int),
            decreases items@.len() - k,
        {
            let cmd = replace_all(format_command, item_lit, items[k].as_str());
            proof {
                assert(views_of(cmds@.push(cmd)) =~= views_of(cmds@).push(cmd@));
                assert(goal.take(k + 1) =~= goal.take(k as int).push(goal[k as int]));
            }
            cmds.push(cmd);
            k = k + 1;
        }
        proof {
            assert(goal.take(items@.len() as int) =~= goal);
        }
        Ok(cmds)
    } else if has_items {
        let joined = join_strings(items, items_separator);
        let cmd = replace_all(format_command, items_lit, joined.as_str());
        let cmds = vec![cmd];
        proof {
            assert(views_of(cmds@) =~= seq![
                replace_seq(
                    format_command@,
                    items_token(),
                    join_seq(views_of(items@), items_separator@),
                ),
            ]);
        }
        Ok(cmds)
    } else if allow_no_fmt {
        let cmds = vec![String::from_str(format_command)];
        proof {
            assert(views_of(cmds@) =~= seq![format_command@]);
        }
        Ok(cmds)
    } else {
        Err(MetaError::TemplateError {
            template: String::from_str(format_command),
            ambiguous: false,
        })
    }
}

/// Each rendered per-item command substitutes its item exactly once: the
/// template splits around its single `<item>` token, and the command is that
/// same split with the item in the token's place.  The hypothesis that the
/// template's only `<` is the token's own rules out a second occurrence.
pub proof fn lemma_per_item_single_substitution(t: Seq<char>, item: Seq<char>)
    requires
        contains_token(t, item_token()),
        count_char(t, '<') == 1,
    ensures
        exists|i: int|
            #[trigger] token_at(t, item_token(), i) && replace_seq(t, item_token(), item)
                == t.take(i) + item + t.skip(i + item_token().len()),
{
    lemma_replace_single_occurrence(t, item_token(), item, '<');
}

/// Rendering a per-item template yields one command per item, and none of
/// the commands still holds the `<item>` token, provided the template's only
/// `<` character is the token's own and no item brings a `<` of its own.  (A
/// template with a stray `<`, or an item that itself embeds the token, can
/// reassemble the literal token in the output.)
pub proof fn lemma_per_item_render_token_free(t: Seq<char>, items: Seq<Seq<char>>, sep: Seq<char>)
    requires
        contains_token(t, item_token()),
        !contains_token(t, items_token()),
        count_char(t, '<') == 1,
        forall|i: int| 0 <= i < items.len() ==> count_char(#[trigger] items[i], '<') == 0,
    ensures
        render_spec(t, items, sep, false) is Some,
        render_spec(t, items, sep, false)->Some_0.len() == items.len(),
        forall|i: int|
            0 <= i < items.len() ==> !contains_token(
                #[trigger] render_spec(t, items, sep, false)->Some_0[i],
                item_token(),
            ),
{
    let cmds = render_spec(t, items, sep, false)->Some_0;
    assert forall|i: int| 0 <= i < items.len() implies !contains_token(
        #[trigger] render_spec(t, items, sep, false)->Some_0[i],
        item_token(),
    ) by {
        let cmd = cmds[i];
        assert(cmd == replace_seq(t, item_token(), items[i]));
        lemma_replace_single_marker(t, item_token(), items[i], '<');
        if contains_token(cmd, item_token()) {
            let j = choose|j: int| token_at(cmd, item_token(), j);
            assert(cmd.subrange(j, j + item_token().len() as int)[0] == cmd[j]);
            assert(cmd[j] == '<');
            assert(cmd.contains('<'));
            lemma_count_char_zero(cmd, '<');
        }
    }
}

} // verus!
