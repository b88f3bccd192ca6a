//! The boot loader's menu parser: turns configuration text and environment
//! text into the ordered entry list, tracking submenu nesting and the saved
//! default, and resolves a user selector (index or identifier) to an entry.

use vstd::prelude::*;
use vstd::string::StrSliceExecFns;
use crate::text::{
    dec_value, find_char, find_char_in, find_sub, find_sub_in, is_index_selector, is_space,
    is_space_char, lemma_span_trans, lemma_subrange_span, lemma_trim_start_span, parse_index,
    span_of, split_on, split_str_on, starts_with_spec, str_eq, str_starts_with, sub_at, trim_spec,
    trim_start_spec, trim_start_str, trim_str,
};

verus! {

/// One item of the boot loader's menu.
#[derive(Clone, Debug)]
pub struct GrubEntry {
    /// The display name of the menu item.
    pub entry_name: String,
    /// The item's stable identifier; empty if the source line carried none.
    pub entry_id: String,
    /// Was the item nested under a named group when encountered?
    pub entry_in_submenu: bool,
    /// Does the item's identifier equal the environment's saved default?
    pub entry_is_default: bool,
}

/// The mathematical image of a [`GrubEntry`].
pub struct GrubEntryV {
    pub entry_name: Seq<char>,
    pub entry_id: Seq<char>,
    pub entry_in_submenu: bool,
    pub entry_is_default: bool,
}

impl View for GrubEntry {
    type V = GrubEntryV;

    open spec fn view(&self) -> GrubEntryV {
        GrubEntryV {
            entry_name: self.entry_name@,
            entry_id: self.entry_id@,
            entry_in_submenu: self.entry_in_submenu,
            entry_is_default: self.entry_is_default,
        }
    }
}

/// The views of a sequence of entries.
pub open spec fn entries_view(v: Seq<GrubEntry>) -> Seq<GrubEntryV> {
    v.map_values(|e: GrubEntry| e@)
}

/// The keyword opening a menu item line.
pub open spec fn menu_keyword() -> Seq<char> {
    "menuentry"@
}

/// The keyword opening a group header line.
pub open spec fn submenu_keyword() -> Seq<char> {
    "submenu"@
}

/// The token that announces an item's identifier on its line.
pub open spec fn id_token() -> Seq<char> {
    "$menuentry_id_option"@
}

/// The line prefix carrying the saved default in the environment text.
pub open spec fn saved_prefix() -> Seq<char> {
    "saved_entry="@
}

/// Is `u` a single-quoted, nonempty, quote-free span at the start?
pub open spec fn quoted_ok(u: Seq<char>) -> bool {
    u.len() >= 1 && u[0] == '\'' && find_char(u.skip(1), '\'') >= 1
}

/// The span between the opening quote and the next quote.
pub open spec fn quoted_content(u: Seq<char>) -> Seq<char> {
    u.subrange(1, 1 + find_char(u.skip(1), '\''))
}

/// Does `l` open with `kw`, at least one blank, and a quoted name?
/// The keyword may be indented, as nested items are in generated menus.
pub open spec fn is_entry_line(l: Seq<char>, kw: Seq<char>) -> bool {
    let t = trim_start_spec(l);
    starts_with_spec(t, kw) && t.len() > kw.len() && is_space_char(t[kw.len() as int])
        && quoted_ok(trim_start_spec(t.skip(kw.len() as int)))
}

/// The quoted name following the keyword of an entry line.
pub open spec fn entry_line_name(l: Seq<char>, kw: Seq<char>) -> Seq<char> {
    quoted_content(trim_start_spec(trim_start_spec(l).skip(kw.len() as int)))
}

/// What follows the quoted name on an entry line.
pub open spec fn entry_line_rest(l: Seq<char>, kw: Seq<char>) -> Seq<char> {
    let u = trim_start_spec(trim_start_spec(l).skip(kw.len() as int));
    u.skip(2 + find_char(u.skip(1), '\''))
}

/// The identifier announced by the identifier token in `rest`, or empty when
/// the token is absent or not followed by blanks and a quoted span.
pub open spec fn id_in_rest(rest: Seq<char>) -> Seq<char> {
    let m = find_sub(rest, id_token());
    if m == -1 {
        Seq::<char>::empty()
    } else {
        let after = rest.skip(m + id_token().len() as int);
        if after.len() > 0 && is_space_char(after[0]) && quoted_ok(trim_start_spec(after)) {
            quoted_content(trim_start_spec(after))
        } else {
            Seq::<char>::empty()
        }
    }
}

/// The identifier of an entry line; empty if the line carries none.
pub open spec fn entry_line_id(l: Seq<char>, kw: Seq<char>) -> Seq<char> {
    id_in_rest(entry_line_rest(l, kw))
}

/// Extract the quoted name at the start of `u` together with what follows
/// its closing quote, or report that `u` opens with no quoted name.
fn take_quoted<'a>(u: &'a str) -> (r: Option<(&'a str, &'a str)>)
    ensures
        match r {
            Some((name, rest)) => quoted_ok(u@) && name@ == quoted_content(u@) && rest@ == u@.skip(
                2 + find_char(u@.skip(1), '\''),
            ),
            None => !quoted_ok(u@),
        },
{
    let un: usize = u.unicode_len();
    if un == 0 || u.get_char(0) != '\'' {
        return None;
    }
    let tail = u.substring_char(1, un);
    proof {
        assert(tail@ =~= u@.skip(1));
    }
    let found = find_char_in(tail, '\'');
    proof {
        crate::text::lemma_find_char_props(tail@, '\'');
    }
    match found {
        None => None,
        Some(q) => {
            if q < 1 {
                None
            } else {
                let name = u.substring_char(1, 1 + q);
                let rest = u.substring_char(2 + q, un);
                proof {
                    assert(name@ =~= quoted_content(u@));
                    assert(rest@ =~= u@.skip(2 + find_char(u@.skip(1), '\'')));
                }
                Some((name, rest))
            }
        },
    }
}

/// Parse one line against a keyword: the quoted name and the (possibly
/// empty) identifier, or `None` when the line does not match the keyword.
fn parse_entry_line(line: &str, kw: &str) -> (r: Option<(String, String)>)
    ensures
        match r {
            Some(p) => is_entry_line(line@, kw@) && p.0@ == entry_line_name(line@, kw@)
                && p.1@ == entry_line_id(line@, kw@),
            None => !is_entry_line(line@, kw@),
        },
{
    let t = trim_start_str(line);
    if !str_starts_with(t, kw) {
        return None;
    }
    let tn: usize = t.unicode_len();
    let kn: usize = kw.unicode_len();
    if tn <= kn {
        return None;
    }
    if !is_space(t.get_char(kn)) {
        return None;
    }
    let after_kw = t.substring_char(kn, tn);
    proof {
        assert(after_kw@ =~= t@.skip(kn as int));
    }
    let u = trim_start_str(after_kw);
    let (name, rest) = match take_quoted(u) {
        None => {
            return None;
        },
        Some(p) => p,
    };
    proof {
        assert(rest@ == entry_line_rest(line@, kw@));
    }
    let id = id_in_rest_exec(rest);
    Some((name.to_owned(), id))
}

/// The identifier announced in the remainder of an entry line.
fn id_in_rest_exec(rest: &str) -> (r: String)
    ensures
        r@ == id_in_rest(rest@),
{
    let token = "$menuentry_id_option";
    proof {
        reveal_strlit("$menuentry_id_option");
    }
    let m = match find_sub_in(rest, token) {
        None => {
            return String::new();
        },
        Some(m) => m,
    };
    proof {
        crate::text::lemma_find_sub_props(rest@, token@);
    }
    let rn: usize = rest.unicode_len();
    let tn: usize = token.unicode_len();
    let after = rest.substring_char(m + tn, rn);
    proof {
        assert(after@ =~= rest@.skip(m + id_token().len() as int));
    }
    let an: usize = after.unicode_len();
    if an == 0 || !is_space(after.get_char(0)) {
        return String::new();
    }
    let v = trim_start_str(after);
    match take_quoted(v) {
        None => String::new(),
        Some((id, _tail)) => id.to_owned(),
    }
}

/// The value of an environment line that carries the saved-default prefix.
pub open spec fn env_line_value(l: Seq<char>) -> Seq<char> {
    trim_spec(l.skip(saved_prefix().len() as int))
}

/// The saved default over a line list: the value of the last line carrying
/// the prefix, or empty when no line does (later lines win).
pub open spec fn env_default_of_lines(lines: Seq<Seq<char>>) -> Seq<char>
    decreases lines.len(),
{
    if lines.len() == 0 {
        Seq::<char>::empty()
    } else if starts_with_spec(lines.last(), saved_prefix()) {
        env_line_value(lines.last())
    } else {
        env_default_of_lines(lines.drop_last())
    }
}

/// The saved default identifier of the environment text.
pub open spec fn env_default_id(env: Seq<char>) -> Seq<char> {
    env_default_of_lines(split_on(env, '\n'))
}

/// Read the saved default identifier out of the environment text.
pub fn parse_grub_env(env: &str) -> (r: String)
    ensures
        r@ == env_default_id(env@),
{
    let lines = split_str_on(env, '\n');
    let prefix = "saved_entry=";
    let pn: usize = prefix.unicode_len();
    let mut val = String::new();
    let mut i: usize = 0;
    proof {
        assert(lines.deep_view().take(0) =~~= Seq::<Seq<char>>::empty());
    }
    while i < lines.len()
        invariant
            0 <= i <= lines@.len(),
            prefix@ == saved_prefix(),
            pn == saved_prefix().len(),
            lines.deep_view() =~~= split_on(env@, '\n'),
            val@ == env_default_of_lines(lines.deep_view().take(i as int)),
        decreases lines@.len() - i,
    {
        let line = lines[i].as_str();
        proof {
            assert(lines.deep_view()[i as int] == lines@[i as int]@);
        }
        if str_starts_with(line, prefix) {
            let ln: usize = line.unicode_len();
            let restpart = line.substring_char(pn, ln);
            proof {
                assert(restpart@ =~= line@.skip(saved_prefix().len() as int));
            }
            let trimmed = trim_str(restpart);
            val = trimmed.to_owned();
        }
        proof {
            let lv = lines.deep_view();
            assert(lv.take(i + 1).drop_last() =~~= lv.take(i as int));
            assert(lv.take(i + 1).last() == lv[i as int]);
        }
        i = i + 1;
    }
    proof {
        assert(lines.deep_view().take(i as int) =~~= lines.deep_view());
    }
    val
}

/// The parser's running state: the entries emitted so far and the name of
/// the group currently open, if any.
pub struct CfgStateV {
    pub entries: Seq<GrubEntryV>,
    pub group: Option<Seq<char>>,
}

/// Is `l` a bare closing brace?
pub open spec fn close_line(l: Seq<char>) -> bool {
    trim_spec(l) == "}"@
}

/// One step of the two-state line machine: a group header opens (or
/// replaces) the tracked group, an item line emits an entry, a bare closing
/// brace while a group is open clears it, and anything else is ignored.
pub open spec fn cfg_step(st: CfgStateV, l: Seq<char>, default_id: Seq<char>) -> CfgStateV {
    if is_entry_line(l, submenu_keyword()) {
        CfgStateV { entries: st.entries, group: Some(entry_line_name(l, submenu_keyword())) }
    } else if is_entry_line(l, menu_keyword()) {
        let id = entry_line_id(l, menu_keyword());
        CfgStateV {
            entries: st.entries.push(
                GrubEntryV {
                    entry_name: entry_line_name(l, menu_keyword()),
                    entry_id: id,
                    entry_in_submenu: st.group is Some,
                    entry_is_default: id == default_id,
                },
            ),
            group: st.group,
        }
    } else if close_line(l) && st.group is Some {
        CfgStateV { entries: st.entries, group: None }
    } else {
        st
    }
}

/// The machine run over a whole line list, starting outside any group.
pub open spec fn cfg_fold(lines: Seq<Seq<char>>, default_id: Seq<char>) -> CfgStateV
    decreases lines.len(),
{
    if lines.len() == 0 {
        CfgStateV { entries: Seq::<GrubEntryV>::empty(), group: None }
    } else {
        cfg_step(cfg_fold(lines.drop_last(), default_id), lines.last(), default_id)
    }
}

/// The entry list of a configuration text under a given saved default.
pub open spec fn parse_cfg_spec(cfg: Seq<char>, default_id: Seq<char>) -> Seq<GrubEntryV> {
    cfg_fold(split_on(cfg, '\n'), default_id).entries
}

/// The view of the tracked group name.
pub open spec fn opt_str_view(o: Option<String>) -> Option<Seq<char>> {
    match o {
        Some(g) => Some(g@),
        None => None,
    }
}

/// Parse the configuration and environment texts into the menu's entry
/// list, in file order, with nesting and default flags set.
pub fn parse_grub_entries(cfg: &str, env: &str) -> (r: Vec<GrubEntry>)
    ensures
        entries_view(r@) == parse_cfg_spec(cfg@, env_default_id(env@)),
{
    let default_id = parse_grub_env(env);
    let lines = split_str_on(cfg, '\n');
    let mut entries: Vec<GrubEntry> = Vec::new();
    let mut group: Option<String> = None;
    let mut i: usize = 0;
    proof {
        assert(lines.deep_view().take(0) =~~= Seq::<Seq<char>>::empty());
        assert(entries_view(entries@) =~~= Seq::<GrubEntryV>::empty());
    }
    while i < lines.len()
        invariant
            0 <= i <= lines@.len(),
            lines.deep_view() =~~= split_on(cfg@, '\n'),
            default_id@ == env_default_id(env@),
            entries_view(entries@) =~~= cfg_fold(
                lines.deep_view().take(i as int),
                env_default_id(env@),
            ).entries,
            opt_str_view(group) == cfg_fold(
                lines.deep_view().take(i as int),
                env_default_id(env@),
            ).group,
        decreases lines@.len() - i,
    {
        let line = lines[i].as_str();
        proof {
            assert(lines.deep_view()[i as int] == lines@[i as int]@);
            let lv = lines.deep_view();
            assert(lv.take(i + 1).drop_last() =~~= lv.take(i as int));
            assert(lv.take(i + 1).last() == lv[i as int]);
        }
        let ghost pre_entries = entries_view(entries@);
        match parse_entry_line(line, "submenu") {
            Some(p) => {
                group = Some(p.0);
            },
            None => {
                match parse_entry_line(line, "menuentry") {
                    Some(p) => {
                        let (name, id) = p;
                        let is_default = str_eq(id.as_str(), default_id.as_str());
                        let in_submenu = group.is_some();
                        let e = GrubEntry {
                            entry_name: name,
                            entry_id: id,
                            entry_in_submenu: in_submenu,
                            entry_is_default: is_default,
                        };
                        entries.push(e);
                        proof {
                            assert(entries_view(entries@) =~~= pre_entries.push(
                                entries@[entries@.len() - 1]@,
                            ));
                        }
                    },
                    None => {
                        let tl = trim_str(line);
                        if str_eq(tl, "}") && group.is_some() {
                            group = None;
                        }
                    },
                }
            },
        }
        i = i + 1;
    }
    proof {
        assert(lines.deep_view().take(i as int) =~~= lines.deep_view());
    }
    entries
}

/// The index of the first entry whose identifier equals `sel`, if any.
pub open spec fn find_by_id_spec(entries: Seq<GrubEntryV>, sel: Seq<char>) -> Option<int>
    decreases entries.len(),
{
    if entries.len() == 0 {
        None
    } else if entries[0].entry_id == sel {
        Some(0)
    } else {
        match find_by_id_spec(entries.drop_first(), sel) {
            Some(j) => Some(j + 1),
            None => None,
        }
    }
}

/// Selector resolution: a plain decimal selector is a zero-based index into
/// the list; any other selector is matched exactly against identifiers.
pub open spec fn selector_index_spec(entries: Seq<GrubEntryV>, sel: Seq<char>) -> Option<int> {
    if is_index_selector(sel) {
        if dec_value(sel) < entries.len() {
            Some(dec_value(sel) as int)
        } else {
            None
        }
    } else {
        find_by_id_spec(entries, sel)
    }
}

/// A scan that saw no identifier match before `j` pins down `find_by_id_spec`.
pub proof fn lemma_find_by_id_scan(entries: Seq<GrubEntryV>, sel: Seq<char>, j: int)
    requires
        0 <= j <= entries.len(),
        forall|k: int| 0 <= k < j ==> entries[k].entry_id != sel,
        j < entries.len() ==> entries[j].entry_id == sel,
    ensures
        find_by_id_spec(entries, sel) == if j < entries.len() {
            Some(j)
        } else {
            None::<int>
        },
    decreases j,
{
    if j == 0 {
    } else {
        lemma_find_by_id_scan(entries.drop_first(), sel, j - 1);
    }
}

/// A unique, matching identifier is found at its own index.
pub proof fn lemma_find_by_id_unique(entries: Seq<GrubEntryV>, sel: Seq<char>, i: int)
    requires
        0 <= i < entries.len(),
        entries[i].entry_id == sel,
        forall|k: int| 0 <= k < i ==> entries[k].entry_id != sel,
    ensures
        find_by_id_spec(entries, sel) == Some(i),
{
    lemma_find_by_id_scan(entries, sel, i);
}

/// Resolve a selector against an entry list: the index it denotes, or
/// `NotFound` when the index is out of range or no identifier matches.
pub fn find_grub_entry(entries: &Vec<GrubEntry>, selector: &str) -> (r: Result<
    usize,
    crate::BootError,
>)
    ensures
        match r {
            Ok(i) => selector_index_spec(entries_view(entries@), selector@) == Some(i as int)
                && i < entries@.len(),
            Err(e) => e == crate::BootError::NotFound && selector_index_spec(
                entries_view(entries@),
                selector@,
            ) is None,
        },
{
    proof {
        assert(entries_view(entries@).len() == entries@.len());
    }
    match parse_index(selector) {
        Some(idx) => {
            if idx < entries.len() {
                Ok(idx)
            } else {
                Err(crate::BootError::NotFound)
            }
        },
        None => {
            let n = entries.len();
            let mut j: usize = 0;
            while j < n && !str_eq(entries[j].entry_id.as_str(), selector)
                invariant
                    0 <= j <= n,
                    n == entries@.len(),
                    forall|k: int|
                        0 <= k < j ==> entries_view(entries@)[k].entry_id != selector@,
                decreases n - j,
            {
                proof {
                    assert(entries_view(entries@)[j as int] == entries@[j as int]@);
                }
                j = j + 1;
            }
            proof {
                if j < n {
                    assert(entries_view(entries@)[j as int] == entries@[j as int]@);
                }
                lemma_find_by_id_scan(entries_view(entries@), selector@, j as int);
            }
            if j < n {
                Ok(j)
            } else {
                Err(crate::BootError::NotFound)
            }
        },
    }
}

/// Law: selecting by index and selecting by identifier agree.  For any
/// decimal selector denoting a valid position `i`, and any entry there whose
/// identifier is nonempty, unique among the entries, and not itself a plain
/// decimal numeral, both selectors resolve to position `i`.
pub proof fn lemma_selector_equivalence(entries: Seq<GrubEntryV>, sel: Seq<char>, i: int)
    requires
        is_index_selector(sel),
        dec_value(sel) == i,
        0 <= i < entries.len(),
        entries[i].entry_id.len() > 0,
        !is_index_selector(entries[i].entry_id),
        forall|j: int|
            0 <= j < entries.len() && j != i ==> entries[j].entry_id != entries[i].entry_id,
    ensures
        selector_index_spec(entries, sel) == Some(i),
        selector_index_spec(entries, entries[i].entry_id) == Some(i),
{
    lemma_find_by_id_unique(entries, entries[i].entry_id, i);
}

/// Every entry the fold emits is flagged default exactly when its
/// identifier equals the saved default.
pub proof fn lemma_cfg_fold_default_flag(lines: Seq<Seq<char>>, default_id: Seq<char>)
    ensures
        forall|k: int|
            0 <= k < cfg_fold(lines, default_id).entries.len() ==> (#[trigger] cfg_fold(
                lines,
                default_id,
            ).entries[k].entry_is_default == (cfg_fold(lines, default_id).entries[k].entry_id
                == default_id)),
    decreases lines.len(),
{
    if lines.len() > 0 {
        lemma_cfg_fold_default_flag(lines.drop_last(), default_id);
    }
}

/// Law: in a parsed menu, exactly the entries whose identifier equals the
/// environment's saved default are flagged default; when no identifier
/// equals it, no entry is flagged.
pub proof fn lemma_default_marking(cfg: Seq<char>, env: Seq<char>)
    ensures
        forall|k: int|
            0 <= k < parse_cfg_spec(cfg, env_default_id(env)).len() ==> (#[trigger] parse_cfg_spec(
                cfg,
                env_default_id(env),
            )[k].entry_is_default == (parse_cfg_spec(cfg, env_default_id(env))[k].entry_id
                == env_default_id(env))),
{
    lemma_cfg_fold_default_flag(split_on(cfg, '\n'), env_default_id(env));
}

/// Inside the remainder of an entry line, the extracted identifier is a
/// contiguous span of that remainder.
proof fn lemma_id_in_rest_span(rest: Seq<char>)
    ensures
        span_of(id_in_rest(rest), rest),
{
    let m = find_sub(rest, id_token());
    crate::text::lemma_find_sub_props(rest, id_token());
    if m == -1 {
        assert(Seq::<char>::empty() =~= rest.subrange(0, 0 + Seq::<char>::empty().len() as int));
    } else {
        assert(sub_at(rest, id_token(), m));
        let after = rest.skip(m + id_token().len() as int);
        assert(after =~= rest.subrange(m + id_token().len() as int, rest.len() as int));
        lemma_subrange_span(rest, m + id_token().len() as int, rest.len() as int);
        if after.len() > 0 && is_space_char(after[0]) && quoted_ok(trim_start_spec(after)) {
            let v = trim_start_spec(after);
            lemma_trim_start_span(after);
            lemma_span_trans(v, after, rest);
            let q = find_char(v.skip(1), '\'');
            crate::text::lemma_find_char_props(v.skip(1), '\'');
            assert(1 <= q && q < v.skip(1).len());
            lemma_subrange_span(v, 1, 1 + q);
            lemma_span_trans(quoted_content(v), v, rest);
        } else {
            assert(Seq::<char>::empty() =~= rest.subrange(
                0,
                0 + Seq::<char>::empty().len() as int,
            ));
        }
    }
}

/// On a matching entry line, the extracted identifier is a contiguous span
/// of the line itself.
proof fn lemma_entry_line_id_span(l: Seq<char>, kw: Seq<char>)
    requires
        is_entry_line(l, kw),
    ensures
        span_of(entry_line_id(l, kw), l),
{
    let t = trim_start_spec(l);
    lemma_trim_start_span(l);
    let u0 = t.skip(kw.len() as int);
    assert(u0 =~= t.subrange(kw.len() as int, t.len() as int));
    lemma_subrange_span(t, kw.len() as int, t.len() as int);
    lemma_span_trans(u0, t, l);
    let u = trim_start_spec(u0);
    lemma_trim_start_span(u0);
    lemma_span_trans(u, u0, l);
    let q = find_char(u.skip(1), '\'');
    crate::text::lemma_find_char_props(u.skip(1), '\'');
    assert(1 <= q && q < u.skip(1).len());
    let rest = u.skip(2 + q);
    assert(rest =~= u.subrange(2 + q, u.len() as int));
    lemma_subrange_span(u, 2 + q, u.len() as int);
    lemma_span_trans(rest, u, l);
    lemma_id_in_rest_span(rest);
    lemma_span_trans(id_in_rest(rest), rest, l);
}

/// Every identifier the fold emits is a span of one of the lines it read.
proof fn lemma_cfg_fold_ids_from_lines(lines: Seq<Seq<char>>, d: Seq<char>)
    ensures
        forall|k: int|
            0 <= k < cfg_fold(lines, d).entries.len() ==> exists|j: int|
                0 <= j < lines.len() && span_of(
                    #[trigger] cfg_fold(lines, d).entries[k].entry_id,
                    #[trigger] lines[j],
                ),
    decreases lines.len(),
{
    if lines.len() > 0 {
        lemma_cfg_fold_ids_from_lines(lines.drop_last(), d);
        let prev = cfg_fold(lines.drop_last(), d);
        let cur = cfg_fold(lines, d);
        let last = lines.last();
        assert forall|k: int| 0 <= k < cur.entries.len() implies exists|j: int|
            0 <= j < lines.len() && span_of(
                #[trigger] cur.entries[k].entry_id,
                #[trigger] lines[j],
            ) by {
            if k < prev.entries.len() {
                assert(cur.entries[k] == prev.entries[k]);
                let j = choose|j: int|
                    0 <= j < lines.drop_last().len() && span_of(
                        #[trigger] prev.entries[k].entry_id,
                        #[trigger] lines.drop_last()[j],
                    );
                assert(lines.drop_last()[j] == lines[j]);
                assert(span_of(cur.entries[k].entry_id, lines[j]));
            } else {
                assert(!is_entry_line(last, submenu_keyword()) && is_entry_line(
                    last,
                    menu_keyword(),
                ));
                lemma_entry_line_id_span(last, menu_keyword());
                assert(cur.entries[k].entry_id == entry_line_id(last, menu_keyword()));
                assert(lines[lines.len() - 1] == last);
                assert(span_of(cur.entries[k].entry_id, lines[lines.len() - 1]));
            }
        }
    }
}

/// Law of the parse's identifiers: none contains a line break — each is a
/// span of a single configuration line.
pub proof fn lemma_parsed_ids_line_free(cfg: Seq<char>, default_id: Seq<char>)
    ensures
        forall|k: int, t: int|
            0 <= k < parse_cfg_spec(cfg, default_id).len() && 0 <= t < parse_cfg_spec(
                cfg,
                default_id,
            )[k].entry_id.len() ==> #[trigger] parse_cfg_spec(cfg, default_id)[k].entry_id[t]
                != '\n',
{
    let lines = split_on(cfg, '\n');
    lemma_cfg_fold_ids_from_lines(lines, default_id);
    crate::text::lemma_split_on_seg_free(cfg, '\n');
    let entries = parse_cfg_spec(cfg, default_id);
    assert forall|k: int, t: int|
        0 <= k < entries.len() && 0 <= t < entries[k].entry_id.len() implies #[trigger] entries[
        k
    ].entry_id[t] != '\n' by {
        let j = choose|j: int|
            0 <= j < lines.len() && span_of(
                #[trigger] cfg_fold(lines, default_id).entries[k].entry_id,
                #[trigger] lines[j],
            );
        assert(forall|u: int| 0 <= u < lines[j].len() ==> lines[j][u] != '\n');
        crate::text::lemma_span_excludes(entries[k].entry_id, lines[j], '\n');
    }
}

} // verus!
