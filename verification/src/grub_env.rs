//! The environment writer: rewrites the saved-default record in the
//! environment text, leaving every other line byte-identical, and the laws
//! tying the rewrite to the parser's notion of the saved default.

use vstd::prelude::*;
use vstd::string::StrSliceExecFns;
use vstd::string::StringExecFns;
use crate::grub_cfg::{env_default_of_lines, env_line_value, saved_prefix};
use crate::text::{
    join_with, lemma_join_with_push, lemma_split_join_id, lemma_split_on_seg_free, split_on,
    split_str_on, starts_with_spec, str_starts_with, trim_spec,
};

verus! {

/// One line after the rewrite: a line carrying the saved-default prefix
/// becomes the prefix followed by the new identifier; any other line stays.
pub open spec fn rewrite_line_spec(l: Seq<char>, id: Seq<char>) -> Seq<char> {
    if starts_with_spec(l, saved_prefix()) {
        saved_prefix() + id
    } else {
        l
    }
}

/// The environment text after the rewrite, line by line.
pub open spec fn rewrite_env_spec(env: Seq<char>, id: Seq<char>) -> Seq<char> {
    join_with(split_on(env, '\n').map_values(|l: Seq<char>| rewrite_line_spec(l, id)), '\n')
}

/// Rewrite the saved default in the environment text to `id`.  Only lines
/// carrying the saved-default prefix change; when none does, the text is
/// returned unchanged.
pub fn rewrite_env(env: &str, id: &str) -> (r: String)
    ensures
        r@ == rewrite_env_spec(env@, id@),
{
    let lines = split_str_on(env, '\n');
    let prefix = "saved_entry=";
    let mut out = String::new();
    let mut i: usize = 0;
    let ghost mapped = split_on(env@, '\n').map_values(|l: Seq<char>| rewrite_line_spec(l, id@));
    proof {
        reveal_strlit("\n");
    }
    while i < lines.len()
        invariant
            0 <= i <= lines@.len(),
            prefix@ == saved_prefix(),
            lines.deep_view() =~~= split_on(env@, '\n'),
            mapped == split_on(env@, '\n').map_values(|l: Seq<char>| rewrite_line_spec(l, id@)),
            mapped.len() == lines@.len(),
            "\n"@ =~= seq!['\n'],
            out@ =~= if i == 0 {
                Seq::<char>::empty()
            } else {
                join_with(mapped.subrange(0, i as int), '\n')
            },
        decreases lines@.len() - i,
    {
        proof {
            assert(lines.deep_view()[i as int] == lines@[i as int]@);
        }
        if i > 0 {
            out.append("\n");
        }
        let line = lines[i].as_str();
        if str_starts_with(line, prefix) {
            out.append(prefix);
            out.append(id);
            proof {
                assert(mapped[i as int] =~= saved_prefix() + id@);
            }
        } else {
            out.append(line);
            proof {
                assert(mapped[i as int] =~= line@);
            }
        }
        proof {
            if i == 0 {
                assert(join_with(mapped.subrange(0, 1), '\n') == mapped.subrange(0, 1)[0]);
                assert(out@ =~= join_with(mapped.subrange(0, 1), '\n'));
            } else {
                lemma_join_with_push(mapped, '\n', i as int);
                assert(out@ =~= join_with(mapped.subrange(0, i + 1), '\n'));
            }
        }
        i = i + 1;
    }
    proof {
        if lines@.len() == 0 {
            assert(false);
        }
        assert(mapped.subrange(0, mapped.len() as int) =~~= mapped);
    }
    out
}

/// Law: the rewrite touches only lines carrying the saved-default prefix.
/// Splitting the rewritten text yields exactly as many lines as the
/// original; a line without the prefix comes back byte-identical, and a line
/// with it becomes the prefix followed by the new identifier.  The new
/// identifier must not contain a line break.
pub proof fn lemma_rewrite_changes_only_saved(env: Seq<char>, id: Seq<char>)
    requires
        forall|k: int| 0 <= k < id.len() ==> id[k] != '\n',
    ensures
        split_on(rewrite_env_spec(env, id), '\n').len() == split_on(env, '\n').len(),
        forall|k: int|
            0 <= k < split_on(env, '\n').len() && !starts_with_spec(
                #[trigger] split_on(env, '\n')[k],
                saved_prefix(),
            ) ==> split_on(rewrite_env_spec(env, id), '\n')[k] == split_on(env, '\n')[k],
        forall|k: int|
            0 <= k < split_on(env, '\n').len() && starts_with_spec(
                #[trigger] split_on(env, '\n')[k],
                saved_prefix(),
            ) ==> split_on(rewrite_env_spec(env, id), '\n')[k] == saved_prefix() + id,
{
    let ls = split_on(env, '\n');
    let mapped = ls.map_values(|l: Seq<char>| rewrite_line_spec(l, id));
    crate::text::lemma_split_on_nonempty(env, '\n');
    lemma_split_on_seg_free(env, '\n');
    lemma_saved_prefix_line_free();
    assert forall|i: int, k: int|
        0 <= i < mapped.len() && 0 <= k < mapped[i].len() implies #[trigger] mapped[i][k]
        != '\n' by {
        if starts_with_spec(ls[i], saved_prefix()) {
            assert(mapped[i] == saved_prefix() + id);
        } else {
            assert(mapped[i] == ls[i]);
        }
    }
    lemma_split_join_id(mapped, '\n');
}

/// No character of the saved-default prefix is a line break.
pub proof fn lemma_saved_prefix_line_free()
    ensures
        forall|k: int| 0 <= k < saved_prefix().len() ==> saved_prefix()[k] != '\n',
{
    reveal_strlit("saved_entry=");
    assert forall|k: int| 0 <= k < saved_prefix().len() implies saved_prefix()[k] != '\n' by {
        assert(saved_prefix().len() == 12);
        if k == 0 {
            assert(saved_prefix()[0] == 's');
        } else if k == 1 {
            assert(saved_prefix()[1] == 'a');
        } else if k == 2 {
            assert(saved_prefix()[2] == 'v');
        } else if k == 3 {
            assert(saved_prefix()[3] == 'e');
        } else if k == 4 {
            assert(saved_prefix()[4] == 'd');
        } else if k == 5 {
            assert(saved_prefix()[5] == '_');
        } else if k == 6 {
            assert(saved_prefix()[6] == 'e');
        } else if k == 7 {
            assert(saved_prefix()[7] == 'n');
        } else if k == 8 {
            assert(saved_prefix()[8] == 't');
        } else if k == 9 {
            assert(saved_prefix()[9] == 'r');
        } else if k == 10 {
            assert(saved_prefix()[10] == 'y');
        } else {
            assert(saved_prefix()[11] == '=');
        }
    }
}

/// Over rewritten lines, the last prefix-carrying line determines the saved
/// default, and its value is the new identifier.
proof fn lemma_env_default_of_mapped(lines: Seq<Seq<char>>, id: Seq<char>)
    requires
        trim_spec(id) == id,
        exists|k: int|
            0 <= k < lines.len() && starts_with_spec(#[trigger] lines[k], saved_prefix()),
    ensures
        env_default_of_lines(lines.map_values(|l: Seq<char>| rewrite_line_spec(l, id))) == id,
    decreases lines.len(),
{
    let mapped = lines.map_values(|l: Seq<char>| rewrite_line_spec(l, id));
    let k = choose|k: int|
        0 <= k < lines.len() && starts_with_spec(#[trigger] lines[k], saved_prefix());
    assert(lines.len() >= 1);
    let last = lines[lines.len() - 1];
    if starts_with_spec(last, saved_prefix()) {
        assert(mapped.last() == saved_prefix() + id);
        assert(starts_with_spec(mapped.last(), saved_prefix())) by {
            assert((saved_prefix() + id).subrange(0, saved_prefix().len() as int) =~= saved_prefix());
        }
        assert((saved_prefix() + id).skip(saved_prefix().len() as int) =~= id);
        assert(env_line_value(mapped.last()) == trim_spec(id));
    } else {
        assert(mapped.last() == last);
        assert(!starts_with_spec(mapped.last(), saved_prefix()));
        assert(k < lines.len() - 1);
        assert(0 <= k < lines.drop_last().len() && starts_with_spec(
            lines.drop_last()[k],
            saved_prefix(),
        ));
        lemma_env_default_of_mapped(lines.drop_last(), id);
        assert(mapped.drop_last() =~~= lines.drop_last().map_values(
            |l: Seq<char>| rewrite_line_spec(l, id),
        ));
    }
}

/// Law: the round trip through the writer and the parser.  If the
/// environment holds at least one saved-default line, and the new identifier
/// is free of line breaks and stable under trimming, then parsing the
/// rewritten environment reports exactly that identifier as the default.
pub proof fn lemma_rewrite_then_parse(env: Seq<char>, id: Seq<char>)
    requires
        forall|k: int| 0 <= k < id.len() ==> id[k] != '\n',
        trim_spec(id) == id,
        exists|k: int|
            0 <= k < split_on(env, '\n').len() && starts_with_spec(
                #[trigger] split_on(env, '\n')[k],
                saved_prefix(),
            ),
    ensures
        crate::grub_cfg::env_default_id(rewrite_env_spec(env, id)) == id,
{
    let ls = split_on(env, '\n');
    let mapped = ls.map_values(|l: Seq<char>| rewrite_line_spec(l, id));
    crate::text::lemma_split_on_nonempty(env, '\n');
    lemma_split_on_seg_free(env, '\n');
    lemma_saved_prefix_line_free();
    assert forall|i: int, k: int|
        0 <= i < mapped.len() && 0 <= k < mapped[i].len() implies #[trigger] mapped[i][k]
        != '\n' by {
        if starts_with_spec(ls[i], saved_prefix()) {
            assert(mapped[i] == saved_prefix() + id);
        } else {
            assert(mapped[i] == ls[i]);
        }
    }
    lemma_split_join_id(mapped, '\n');
    lemma_env_default_of_mapped(ls, id);
}

/// When no line carries the saved-default prefix, the rewrite returns the
/// text unchanged, byte for byte.
pub proof fn lemma_rewrite_without_saved_line(env: Seq<char>, id: Seq<char>)
    requires
        forall|k: int|
            0 <= k < split_on(env, '\n').len() ==> !starts_with_spec(
                #[trigger] split_on(env, '\n')[k],
                saved_prefix(),
            ),
    ensures
        rewrite_env_spec(env, id) == env,
{
    let ls = split_on(env, '\n');
    let mapped = ls.map_values(|l: Seq<char>| rewrite_line_spec(l, id));
    assert forall|k: int| 0 <= k < ls.len() implies #[trigger] mapped[k] == ls[k] by {
        assert(!starts_with_spec(ls[k], saved_prefix()));
    }
    assert(mapped =~~= ls);
    crate::text::lemma_join_split_id(env, '\n');
}

} // verus!
