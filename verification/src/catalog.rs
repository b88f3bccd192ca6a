//! The entry catalog: the per-invocation handle with its cached device
//! location, the planning step behind setting a default entry, the display
//! lines of both catalogs, and the round-trip law tying the writer back to
//! the parser.

use vstd::prelude::*;
use vstd::string::StrSliceExecFns;
use vstd::string::StringExecFns;
use crate::BootError;
use crate::firmware::{bcd_view, opt_view, BcdEntry, BcdEntryV};
use crate::grub_cfg::{
    cfg_fold, entries_view, env_default_id, find_grub_entry, parse_cfg_spec, parse_grub_entries,
    selector_index_spec, GrubEntry, GrubEntryV,
};
use crate::grub_env::{rewrite_env, rewrite_env_spec};
use crate::resolver::{get_grub_location, grub_location_spec};
use crate::text::split_on;

verus! {

/// The per-invocation handle: the user's hint for the loader's firmware
/// description, and the device location once resolved, cached so one run
/// never enumerates the firmware twice.
pub struct Handle {
    /// The user-supplied description hint, if any.
    pub grub_desc: Option<String>,
    /// The resolved raw device path, once computed.
    pub grub_loc: Option<String>,
}

impl Default for Handle {
    /// A handle with no hint and nothing resolved yet.
    fn default() -> (r: Handle)
        ensures
            r.grub_desc is None,
            r.grub_loc is None,
    {
        Handle { grub_desc: None, grub_loc: None }
    }
}

impl Handle {
    /// A fresh handle with no hint and nothing resolved.
    pub fn new() -> (r: Handle)
        ensures
            r.grub_desc is None,
            r.grub_loc is None,
    {
        Handle { grub_desc: None, grub_loc: None }
    }

    /// The cached device location, if one was resolved in this run.
    pub fn cached_location(&self) -> (r: &Option<String>)
        ensures
            r == &self.grub_loc,
    {
        &self.grub_loc
    }

    /// The device location: the cached one when present, else the one the
    /// given firmware entries yield under the handle's hint, which is then
    /// cached.  `NotFound` when no entry provides a location.
    pub fn resolve_location(&mut self, entries: &Vec<BcdEntry>) -> (r: Result<String, BootError>)
        ensures
            final(self).grub_desc == old(self).grub_desc,
            match old(self).grub_loc {
                Some(cached) => final(self).grub_loc == old(self).grub_loc && match r {
                    Ok(loc) => loc@ == cached@,
                    Err(_) => false,
                },
                None => match grub_location_spec(bcd_view(entries@), opt_view(old(self).grub_desc)) {
                    Some(p) => opt_view(final(self).grub_loc) == Some(p) && match r {
                        Ok(loc) => loc@ == p,
                        Err(_) => false,
                    },
                    None => final(self).grub_loc is None && match r {
                        Ok(_) => false,
                        Err(e) => e == BootError::NotFound,
                    },
                },
            },
    {
        match &self.grub_loc {
            Some(loc) => Ok(loc.clone()),
            None => {
                match get_grub_location(entries, &self.grub_desc) {
                    Some(p) => {
                        self.grub_loc = Some(p.clone());
                        Ok(p)
                    },
                    None => Err(BootError::NotFound),
                }
            },
        }
    }
}

/// Plan a default change: resolve the selector against the parsed menu,
/// and return the rewritten environment text together with the chosen
/// entry's display name.  `NotFound` when the selector is an out-of-range
/// index or matches no identifier.
pub fn plan_set_entry(cfg: &str, env: &str, selector: &str) -> (r: Result<
    (String, String),
    BootError,
>)
    ensures
        ({
            let entries = parse_cfg_spec(cfg@, env_default_id(env@));
            match selector_index_spec(entries, selector@) {
                Some(i) => match r {
                    Ok(p) => p.0@ == rewrite_env_spec(env@, entries[i].entry_id) && p.1@
                        == entries[i].entry_name,
                    Err(_) => false,
                },
                None => match r {
                    Ok(_) => false,
                    Err(e) => e == BootError::NotFound,
                },
            }
        }),
{
    let entries = parse_grub_entries(cfg, env);
    match find_grub_entry(&entries, selector) {
        Ok(i) => {
            proof {
                assert(entries_view(entries@)[i as int] == entries@[i as int]@);
            }
            let new_env = rewrite_env(env, entries[i].entry_id.as_str());
            let name = entries[i].entry_name.clone();
            Ok((new_env, name))
        },
        Err(e) => Err(e),
    }
}

/// The display line of one menu entry: a star for the default, an indent
/// for nested entries, then the name and identifier.
pub open spec fn grub_line_spec(e: GrubEntryV) -> Seq<char> {
    (if e.entry_is_default {
        "*"@
    } else {
        " "@
    }) + " "@ + (if e.entry_in_submenu {
        "  "@
    } else {
        ""@
    }) + e.entry_name + " ("@ + e.entry_id + ")"@
}

/// Build the display line of one menu entry.
pub fn format_grub_entry(e: &GrubEntry) -> (r: String)
    ensures
        r@ == grub_line_spec(e@),
{
    let mut out = String::new();
    if e.entry_is_default {
        out.append("*");
    } else {
        out.append(" ");
    }
    out.append(" ");
    if e.entry_in_submenu {
        out.append("  ");
    }
    out.append(e.entry_name.as_str());
    out.append(" (");
    out.append(e.entry_id.as_str());
    out.append(")");
    proof {
        if !e.entry_in_submenu {
            assert(""@ =~= Seq::<char>::empty()) by {
                reveal_strlit("");
            }
        }
        assert(out@ =~= grub_line_spec(e@));
    }
    out
}

/// Build the display lines of the whole menu, in menu order.
pub fn format_grub_entries(entries: &Vec<GrubEntry>) -> (r: Vec<String>)
    ensures
        r@.len() == entries@.len(),
        forall|k: int| 0 <= k < entries@.len() ==> #[trigger] r.deep_view()[k] == grub_line_spec(
            entries@[k]@,
        ),
{
    let mut out: Vec<String> = Vec::new();
    let mut i: usize = 0;
    while i < entries.len()
        invariant
            0 <= i <= entries@.len(),
            out@.len() == i,
            forall|k: int| 0 <= k < i ==> #[trigger] out.deep_view()[k] == grub_line_spec(
                entries@[k]@,
            ),
        decreases entries@.len() - i,
    {
        let line = format_grub_entry(&entries[i]);
        let ghost pre = out.deep_view();
        out.push(line);
        proof {
            assert(out.deep_view() =~~= pre.push(grub_line_spec(entries@[i as int]@)));
        }
        i = i + 1;
    }
    out
}

/// The display line of one firmware record: an angle mark on the boot
/// manager's own record, a star on the first of the display order, then
/// the description and identifier.
pub open spec fn fw_line_spec(e: BcdEntryV, mgr_id: Option<Seq<char>>, first_ord: Seq<char>) -> Seq<
    char,
> {
    (if e.id == mgr_id {
        ">"@
    } else {
        "  "@
    }) + (if e.id == Some(first_ord) {
        "*"@
    } else {
        " "@
    }) + " "@ + (match e.description {
        Some(d) => d,
        None => Seq::<char>::empty(),
    }) + " ("@ + (match e.id {
        Some(x) => x,
        None => Seq::<char>::empty(),
    }) + ")"@
}

/// Are two optional strings equal as values?
fn opt_str_eq(a: &Option<String>, b: &Option<String>) -> (r: bool)
    ensures
        r == (opt_view(*a) == opt_view(*b)),
{
    match (a, b) {
        (Some(x), Some(y)) => crate::text::str_eq(x.as_str(), y.as_str()),
        (None, None) => true,
        _ => false,
    }
}

/// Build the display lines of the firmware records.  Every record must
/// carry a description and an identifier, and the first record — the boot
/// manager's own — must carry a nonempty display order.
pub fn format_fw_entries(entries: &Vec<BcdEntry>) -> (r: Vec<String>)
    requires
        entries@.len() >= 1,
        entries@[0]@.displayorder.len() >= 1,
        forall|k: int|
            0 <= k < entries@.len() ==> (#[trigger] entries@[k]@).description is Some
                && entries@[k]@.id is Some,
    ensures
        r@.len() == entries@.len(),
        forall|k: int|
            0 <= k < entries@.len() ==> #[trigger] r.deep_view()[k] == fw_line_spec(
                entries@[k]@,
                entries@[0]@.id,
                entries@[0]@.displayorder[0],
            ),
{
    let mut out: Vec<String> = Vec::new();
    let mut i: usize = 0;
    while i < entries.len()
        invariant
            0 <= i <= entries@.len(),
            out@.len() == i,
            entries@.len() >= 1,
            entries@[0]@.displayorder.len() >= 1,
            forall|k: int|
                0 <= k < entries@.len() ==> (#[trigger] entries@[k]@).description is Some
                    && entries@[k]@.id is Some,
            forall|k: int|
                0 <= k < i ==> #[trigger] out.deep_view()[k] == fw_line_spec(
                    entries@[k]@,
                    entries@[0]@.id,
                    entries@[0]@.displayorder[0],
                ),
        decreases entries@.len() - i,
    {
        let e = &entries[i];
        let mut line = String::new();
        if opt_str_eq(&e.id, &entries[0].id) {
            line.append(">");
        } else {
            line.append("  ");
        }
        let first_ord = &entries[0].displayorder[0];
        proof {
            assert(entries@[0]@.displayorder[0] == entries@[0].displayorder@[0]@);
        }
        let id_is_first = match &e.id {
            Some(x) => crate::text::str_eq(x.as_str(), first_ord.as_str()),
            None => false,
        };
        if id_is_first {
            line.append("*");
        } else {
            line.append(" ");
        }
        line.append(" ");
        match &e.description {
            Some(d) => line.append(d.as_str()),
            None => (),
        }
        line.append(" (");
        match &e.id {
            Some(x) => line.append(x.as_str()),
            None => (),
        }
        line.append(")");
        proof {
            assert(line@ =~= fw_line_spec(
                entries@[i as int]@,
                entries@[0]@.id,
                entries@[0]@.displayorder[0],
            ));
        }
        let ghost pre = out.deep_view();
        out.push(line);
        proof {
            assert(out.deep_view() =~~= pre.push(fw_line_spec(
                entries@[i as int]@,
                entries@[0]@.id,
                entries@[0]@.displayorder[0],
            )));
        }
        i = i + 1;
    }
    out
}

/// The folds under two saved defaults agree on everything but the default
/// flags: same length, names, identifiers and nesting.
proof fn lemma_cfg_fold_id_independent(lines: Seq<Seq<char>>, d1: Seq<char>, d2: Seq<char>)
    ensures
        cfg_fold(lines, d1).entries.len() == cfg_fold(lines, d2).entries.len(),
        cfg_fold(lines, d1).group == cfg_fold(lines, d2).group,
        forall|k: int|
            0 <= k < cfg_fold(lines, d1).entries.len() ==> {
                let a = #[trigger] cfg_fold(lines, d1).entries[k];
                let b = cfg_fold(lines, d2).entries[k];
                a.entry_name == b.entry_name && a.entry_id == b.entry_id && a.entry_in_submenu
                    == b.entry_in_submenu
            },
    decreases lines.len(),
{
    if lines.len() > 0 {
        lemma_cfg_fold_id_independent(lines.drop_last(), d1, d2);
    }
}

/// Law: the round trip of setting and then listing.  When a selector
/// resolves to position `i`, the environment is rewritten with that entry's
/// identifier; parsing the same configuration against the rewritten
/// environment yields the same entries, with exactly the entries carrying
/// that identifier — position `i` among them — flagged default.  This needs
/// the environment to hold a saved-default line, and the identifier to be
/// stable under trimming; a parsed identifier never contains a line break.
pub proof fn lemma_set_then_get_reports_default(cfg: Seq<char>, env: Seq<char>, i: int)
    requires
        0 <= i < parse_cfg_spec(cfg, env_default_id(env)).len(),
        ({
            let id = parse_cfg_spec(cfg, env_default_id(env))[i].entry_id;
            crate::text::trim_spec(id) == id
        }),
        exists|k: int|
            0 <= k < split_on(env, '\n').len() && crate::text::starts_with_spec(
                #[trigger] split_on(env, '\n')[k],
                crate::grub_cfg::saved_prefix(),
            ),
    ensures
        ({
            let entries1 = parse_cfg_spec(cfg, env_default_id(env));
            let id = entries1[i].entry_id;
            let entries2 = parse_cfg_spec(
                cfg,
                env_default_id(rewrite_env_spec(env, id)),
            );
            entries2.len() == entries1.len() && entries2[i].entry_is_default && (forall|k: int|
                0 <= k < entries2.len() ==> ((#[trigger] entries2[k]).entry_is_default <==> entries2[
                    k
                ].entry_id == id)) && (forall|k: int|
                0 <= k < entries2.len() ==> (#[trigger] entries2[k]).entry_id
                    == entries1[k].entry_id && entries2[k].entry_name == entries1[k].entry_name
                    && entries2[k].entry_in_submenu == entries1[k].entry_in_submenu)
        }),
{
    let entries1 = parse_cfg_spec(cfg, env_default_id(env));
    let id = entries1[i].entry_id;
    crate::grub_cfg::lemma_parsed_ids_line_free(cfg, env_default_id(env));
    assert(forall|k: int| 0 <= k < id.len() ==> id[k] != '\n');
    crate::grub_env::lemma_rewrite_then_parse(env, id);
    let new_default = env_default_id(rewrite_env_spec(env, id));
    assert(new_default == id);
    lemma_cfg_fold_id_independent(split_on(cfg, '\n'), env_default_id(env), new_default);
    crate::grub_cfg::lemma_cfg_fold_default_flag(split_on(cfg, '\n'), new_default);
}

} // verus!
