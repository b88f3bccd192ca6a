//! The device location resolver: maps the firmware entry list and an
//! optional user hint to the raw device path backing the boot loader's
//! files.  The fixed keywords cover the generic loader name and the two
//! most common distribution names; a hint is lowercased and added.

use vstd::prelude::*;
use vstd::string::StrSliceExecFns;
use crate::firmware::{bcd_view, opt_view, BcdEntry, BcdEntryV};
use crate::text::{
    contains_sub, find_char, find_char_in, has_sub, lower_of, lowercase, sub_at, trim_spec,
    trim_str,
};

verus! {

/// Does a lowercased description contain one of the fixed keywords, or the
/// lowercased hint if one was given?
pub open spec fn keyword_match(desc: Seq<char>, hint: Option<Seq<char>>) -> bool {
    has_sub(lower_of(desc), "grub"@) || has_sub(lower_of(desc), "debian"@) || has_sub(
        lower_of(desc),
        "ubuntu"@,
    ) || (match hint {
        Some(h) => has_sub(lower_of(desc), lower_of(h)),
        None => false,
    })
}

/// The raw device path inside a device field: what follows the first `=`,
/// trimmed; `None` when the field has no `=`.
pub open spec fn device_value(dev: Seq<char>) -> Option<Seq<char>> {
    let e = find_char(dev, '=');
    if e == -1 {
        None
    } else {
        Some(trim_spec(dev.skip(e + 1)))
    }
}

/// Does this entry yield the loader's location: it boots from a real
/// partition, its description matches a keyword, and its device field
/// carries a raw path?
pub open spec fn entry_provides_location(e: BcdEntryV, hint: Option<Seq<char>>) -> bool {
    e.device is Some && e.path is Some && (match e.description {
        Some(d) => keyword_match(d, hint),
        None => false,
    }) && (match e.device {
        Some(dev) => device_value(dev) is Some,
        None => false,
    })
}

/// The location the entry list yields: the device value of the first entry
/// that provides one.
pub open spec fn grub_location_spec(entries: Seq<BcdEntryV>, hint: Option<Seq<char>>) -> Option<
    Seq<char>,
>
    decreases entries.len(),
{
    if entries.len() == 0 {
        None
    } else if entry_provides_location(entries[0], hint) {
        match entries[0].device {
            Some(dev) => device_value(dev),
            None => None,
        }
    } else {
        grub_location_spec(entries.drop_first(), hint)
    }
}

/// A scan that saw no providing entry before `j` pins down the location.
proof fn lemma_location_scan(entries: Seq<BcdEntryV>, hint: Option<Seq<char>>, j: int)
    requires
        0 <= j <= entries.len(),
        forall|k: int| 0 <= k < j ==> !entry_provides_location(#[trigger] entries[k], hint),
    ensures
        grub_location_spec(entries, hint) == grub_location_spec(entries.skip(j), hint),
    decreases j,
{
    if j == 0 {
        assert(entries.skip(0) =~= entries);
    } else {
        assert(!entry_provides_location(entries[0], hint));
        let t = entries.drop_first();
        assert forall|k: int| 0 <= k < j - 1 implies !entry_provides_location(
            #[trigger] t[k],
            hint,
        ) by {
            assert(t[k] == entries[k + 1]);
        }
        lemma_location_scan(t, hint, j - 1);
        assert(t.skip(j - 1) =~= entries.skip(j));
    }
}

/// Does the lowercased description contain the keyword or hint set?
fn keyword_match_exec(desc: &str, hint: &Option<String>) -> (r: bool)
    ensures
        r == keyword_match(desc@, opt_view(*hint)),
{
    let dl = lowercase(desc);
    proof {
        reveal_strlit("grub");
        reveal_strlit("debian");
        reveal_strlit("ubuntu");
    }
    if contains_sub(dl.as_str(), "grub") {
        return true;
    }
    if contains_sub(dl.as_str(), "debian") {
        return true;
    }
    if contains_sub(dl.as_str(), "ubuntu") {
        return true;
    }
    match hint {
        Some(h) => {
            let hl = lowercase(h.as_str());
            if hl.as_str().unicode_len() == 0 {
                proof {
                    assert(sub_at(dl@, hl@, 0)) by {
                        assert(dl@.subrange(0, 0) =~= hl@);
                    }
                }
                true
            } else {
                contains_sub(dl.as_str(), hl.as_str())
            }
        },
        None => false,
    }
}

/// The raw device path inside a device field, if the field carries one.
fn device_value_exec(dev: &str) -> (r: Option<String>)
    ensures
        opt_view(r) == device_value(dev@),
{
    let n: usize = dev.unicode_len();
    match find_char_in(dev, '=') {
        None => None,
        Some(e) => {
            proof {
                crate::text::lemma_find_char_props(dev@, '=');
            }
            let tail = dev.substring_char(e + 1, n);
            proof {
                assert(tail@ =~= dev@.skip(find_char(dev@, '=') + 1));
            }
            let trimmed = trim_str(tail);
            Some(trimmed.to_owned())
        },
    }
}

/// Resolve the raw device path backing the boot loader's files: the device
/// value of the first on-disk entry whose description matches a keyword or
/// the hint.  `None` when no entry provides one.
pub fn get_grub_location(entries: &Vec<BcdEntry>, description: &Option<String>) -> (r: Option<
    String,
>)
    ensures
        opt_view(r) == grub_location_spec(bcd_view(entries@), opt_view(*description)),
{
    let n = entries.len();
    let mut j: usize = 0;
    while j < n
        invariant
            0 <= j <= n,
            n == entries@.len(),
            forall|k: int|
                0 <= k < j ==> !entry_provides_location(
                    #[trigger] bcd_view(entries@)[k],
                    opt_view(*description),
                ),
        decreases n - j,
    {
        proof {
            assert(bcd_view(entries@)[j as int] == entries@[j as int]@);
        }
        let e = &entries[j];
        if e.entry_on_disk() {
            let matched = match &e.description {
                Some(d) => keyword_match_exec(d.as_str(), description),
                None => false,
            };
            if matched {
                let dv = match &e.device {
                    Some(dev) => device_value_exec(dev.as_str()),
                    None => None,
                };
                match dv {
                    Some(v) => {
                        proof {
                            lemma_location_scan(
                                bcd_view(entries@),
                                opt_view(*description),
                                j as int,
                            );
                            assert(bcd_view(entries@).skip(j as int)[0] == bcd_view(entries@)[
                                j as int
                            ]);
                        }
                        return Some(v);
                    },
                    None => {},
                }
            }
        }
        j = j + 1;
    }
    proof {
        lemma_location_scan(bcd_view(entries@), opt_view(*description), n as int);
        assert(bcd_view(entries@).skip(n as int) =~= Seq::<BcdEntryV>::empty());
    }
    None
}

} // verus!
