//! The firmware boot-manager dump parser: splits the inspection tool's
//! textual dump into blank-line-separated records, reads each record's
//! key/value lines into a structured entry, and recovers identifiers
//! through membership in the boot manager's display order.

use vstd::prelude::*;
use vstd::string::StrSliceExecFns;
use crate::text::{
    dec_value, find_char, find_char_in, is_u32_numeral, lower_of, lowercase, parse_u32, split_on,
    split_str_on, str_eq, trim_spec, trim_str,
};

verus! {

/// One record of the firmware boot manager's dump.
#[derive(Clone, Debug)]
pub struct BcdEntry {
    /// The record's bracketed identifier, if it could be recovered.
    pub id: Option<String>,
    /// The device the record boots from; absent for virtual entries.
    pub device: Option<String>,
    /// The loader path on that device; absent for virtual entries.
    pub path: Option<String>,
    /// The record's display description.
    pub description: Option<String>,
    /// The record's locale.
    pub locale: Option<String>,
    /// The records this one inherits settings from.
    pub inherit: Option<String>,
    /// The record the boot manager treats as its default.
    pub default: Option<String>,
    /// The record resumed from hibernation.
    pub resumeobject: Option<String>,
    /// The ordered identifier list; populated only on the boot manager's
    /// own record, the first of the dump.
    pub displayorder: Vec<String>,
    /// The tools menu order.
    pub toolsdisplayorder: Option<String>,
    /// The menu timeout in seconds; zero when the dump's value is not a
    /// plain decimal numeral.
    pub timeout: u32,
}

/// The mathematical image of a [`BcdEntry`].
#[verifier::ext_equal]
pub struct BcdEntryV {
    pub id: Option<Seq<char>>,
    pub device: Option<Seq<char>>,
    pub path: Option<Seq<char>>,
    pub description: Option<Seq<char>>,
    pub locale: Option<Seq<char>>,
    pub inherit: Option<Seq<char>>,
    pub default: Option<Seq<char>>,
    pub resumeobject: Option<Seq<char>>,
    pub displayorder: Seq<Seq<char>>,
    pub toolsdisplayorder: Option<Seq<char>>,
    pub timeout: u32,
}

/// The view of an optional string.
pub open spec fn opt_view(o: Option<String>) -> Option<Seq<char>> {
    match o {
        Some(v) => Some(v@),
        None => None,
    }
}

impl View for BcdEntry {
    type V = BcdEntryV;

    open spec fn view(&self) -> BcdEntryV {
        BcdEntryV {
            id: opt_view(self.id),
            device: opt_view(self.device),
            path: opt_view(self.path),
            description: opt_view(self.description),
            locale: opt_view(self.locale),
            inherit: opt_view(self.inherit),
            default: opt_view(self.default),
            resumeobject: opt_view(self.resumeobject),
            displayorder: self.displayorder.deep_view(),
            toolsdisplayorder: opt_view(self.toolsdisplayorder),
            timeout: self.timeout,
        }
    }
}

/// The views of a sequence of records.
pub open spec fn bcd_view(v: Seq<BcdEntry>) -> Seq<BcdEntryV> {
    v.map_values(|e: BcdEntry| e@)
}

impl BcdEntry {
    /// An entry boots from a real partition exactly when both its device
    /// and its loader path are present.
    pub fn entry_on_disk(&self) -> (r: bool)
        ensures
            r == (self@.device is Some && self@.path is Some),
    {
        self.device.is_some() && self.path.is_some()
    }

    /// A record with nothing recovered yet: every field absent, the order
    /// empty, the timeout zero.
    pub fn empty() -> (r: BcdEntry)
        ensures
            r@ == empty_bcd_entry(),
    {
        let e = BcdEntry {
            id: None,
            device: None,
            path: None,
            description: None,
            locale: None,
            inherit: None,
            default: None,
            resumeobject: None,
            displayorder: Vec::new(),
            toolsdisplayorder: None,
            timeout: 0,
        };
        proof {
            assert(e.displayorder.deep_view() =~~= Seq::<Seq<char>>::empty());
        }
        e
    }
}

/// The image of a record with nothing recovered.
pub open spec fn empty_bcd_entry() -> BcdEntryV {
    BcdEntryV {
        id: None,
        device: None,
        path: None,
        description: None,
        locale: None,
        inherit: None,
        default: None,
        resumeobject: None,
        displayorder: Seq::<Seq<char>>::empty(),
        toolsdisplayorder: None,
        timeout: 0,
    }
}

/// `s` with every carriage-return/line-feed pair folded to a line feed.
pub open spec fn normalize_crlf(s: Seq<char>) -> Seq<char>
    decreases s.len(),
{
    if s.len() >= 2 && s[0] == '\r' && s[1] == '\n' {
        seq!['\n'] + normalize_crlf(s.skip(2))
    } else if s.len() == 0 {
        s
    } else {
        seq![s[0]] + normalize_crlf(s.drop_first())
    }
}

/// The spans of `s` between blank lines (two adjacent line feeds), taken
/// left to right without overlap.
pub open spec fn split_blank(s: Seq<char>) -> Seq<Seq<char>>
    decreases s.len(),
{
    if s.len() >= 2 && s[0] == '\n' && s[1] == '\n' {
        seq![Seq::<char>::empty()] + split_blank(s.skip(2))
    } else if s.len() == 0 {
        seq![Seq::<char>::empty()]
    } else {
        let rest = split_blank(s.drop_first());
        seq![seq![s[0]] + rest[0]] + rest.drop_first()
    }
}

/// The records of a raw dump: line endings normalized, then split on
/// blank lines.
pub open spec fn split_sections_spec(s: Seq<char>) -> Seq<Seq<char>> {
    split_blank(normalize_crlf(s))
}

/// Splitting on blank lines always yields at least one span.
pub proof fn lemma_split_blank_nonempty(s: Seq<char>)
    ensures
        split_blank(s).len() >= 1,
    decreases s.len(),
{
    if s.len() >= 2 && s[0] == '\n' && s[1] == '\n' {
        lemma_split_blank_nonempty(s.skip(2));
    } else if s.len() > 0 {
        lemma_split_blank_nonempty(s.drop_first());
    }
}

/// A span with no blank line is returned whole.
pub proof fn lemma_split_blank_no_sep(s: Seq<char>)
    requires
        forall|k: int| 0 <= k < s.len() - 1 ==> !(#[trigger] s[k] == '\n' && s[k + 1] == '\n'),
    ensures
        split_blank(s) =~~= seq![s],
    decreases s.len(),
{
    if s.len() == 0 {
        assert(split_blank(s) == seq![Seq::<char>::empty()]);
        assert(split_blank(s) =~~= seq![s]);
    } else if s.len() >= 2 && s[0] == '\n' && s[1] == '\n' {
        assert(false);
    } else {
        let t = s.drop_first();
        assert forall|k: int| 0 <= k < t.len() - 1 implies !(#[trigger] t[k] == '\n' && t[k + 1] == '\n') by {
            assert(t[k] == s[k + 1]);
            assert(t[k + 1] == s[k + 2]);
        }
        lemma_split_blank_no_sep(t);
        let rest = split_blank(t);
        assert(rest.drop_first() =~= Seq::<Seq<char>>::empty());
        assert(seq![s[0]] + rest[0] =~= s);
        assert(split_blank(s) =~~= seq![s]);
    }
}

/// Peeling the first blank-line-free span off the front of a split.
pub proof fn lemma_split_blank_head(s: Seq<char>, j: int)
    requires
        0 <= j,
        j + 1 < s.len(),
        s[j] == '\n',
        s[j + 1] == '\n',
        forall|k: int| 0 <= k < j ==> !(#[trigger] s[k] == '\n' && s[k + 1] == '\n'),
    ensures
        split_blank(s) =~~= seq![s.subrange(0, j)] + split_blank(s.skip(j + 2)),
    decreases s.len(),
{
    if j == 0 {
        assert(s.subrange(0, 0) =~= Seq::<char>::empty());
    } else {
        let t = s.drop_first();
        assert(!(s[0] == '\n' && s[1] == '\n'));
        assert forall|k: int| 0 <= k < j - 1 implies !(#[trigger] t[k] == '\n' && t[k + 1] == '\n') by {
            assert(t[k] == s[k + 1]);
            assert(t[k + 1] == s[k + 2]);
        }
        assert(t[j - 1] == s[j]);
        assert(t[j] == s[j + 1]);
        lemma_split_blank_head(t, j - 1);
        lemma_split_blank_nonempty(t.skip(j + 1));
        assert(t.skip(j + 1) =~= s.skip(j + 2));
        let rest = seq![t.subrange(0, j - 1)] + split_blank(t.skip(j + 1));
        assert(split_blank(t) =~~= rest);
        assert(seq![s[0]] + split_blank(t)[0] =~= s.subrange(0, j));
        assert(split_blank(s) =~~= seq![seq![s[0]] + split_blank(t)[0]] + split_blank(
            t,
        ).drop_first());
        assert(split_blank(t).drop_first() =~~= split_blank(s.skip(j + 2)));
    }
}

/// Fold the carriage-return/line-feed pairs of `s` to line feeds.
fn normalize_crlf_exec(s: &str) -> (r: String)
    ensures
        r@ == normalize_crlf(s@),
{
    let n: usize = s.unicode_len();
    let mut out = String::new();
    let mut i: usize = 0;
    proof {
        assert(s@.skip(0) =~= s@);
    }
    while i < n
        invariant
            0 <= i <= n,
            n == s@.len(),
            normalize_crlf(s@) =~= out@ + normalize_crlf(s@.skip(i as int)),
        decreases n - i,
    {
        let c = s.get_char(i);
        let ghost pre = out@;
        if c == '\r' && i + 1 < n && s.get_char(i + 1) == '\n' {
            let piece = s.substring_char(i + 1, i + 2);
            proof {
                assert(piece@ =~= seq![s@[i + 1]]);
            }
            out.append(piece);
            proof {
                let tail = s@.skip(i as int);
                assert(tail.len() >= 2 && tail[0] == '\r' && tail[1] == '\n');
                assert(normalize_crlf(tail) == seq!['\n'] + normalize_crlf(tail.skip(2)));
                assert(tail.skip(2) =~= s@.skip(i + 2));
                assert(out@ =~= pre + seq!['\n']);
                assert(normalize_crlf(s@) =~= out@ + normalize_crlf(s@.skip(i + 2)));
            }
            i = i + 2;
        } else {
            let piece = s.substring_char(i, i + 1);
            proof {
                assert(piece@ =~= seq![s@[i as int]]);
            }
            out.append(piece);
            proof {
                let tail = s@.skip(i as int);
                assert(tail.len() >= 1 && tail[0] == s@[i as int]);
                assert(!(tail.len() >= 2 && tail[0] == '\r' && tail[1] == '\n'));
                assert(normalize_crlf(tail) == seq![tail[0]] + normalize_crlf(tail.drop_first()));
                assert(tail.drop_first() =~= s@.skip(i + 1));
                assert(out@ =~= pre + seq![s@[i as int]]);
                assert(normalize_crlf(s@) =~= out@ + normalize_crlf(s@.skip(i + 1)));
            }
            i = i + 1;
        }
    }
    proof {
        assert(s@.skip(n as int) =~= Seq::<char>::empty());
        assert(normalize_crlf(Seq::<char>::empty()) =~= Seq::<char>::empty());
    }
    out
}

/// Split the raw dump into its records: line endings are normalized, then
/// the text is cut at every blank line.
pub fn split_sections(input: &str) -> (r: Vec<String>)
    ensures
        r.deep_view() =~~= split_sections_spec(input@),
        r@.len() >= 1,
{
    let norm = normalize_crlf_exec(input);
    let s = norm.as_str();
    let n: usize = s.unicode_len();
    let mut parts: Vec<String> = Vec::new();
    let mut start: usize = 0;
    let mut j: usize = 0;
    proof {
        assert(s@.subrange(0, n as int) =~= s@);
        assert(parts.deep_view() =~= Seq::<Seq<char>>::empty());
    }
    while j < n
        invariant
            0 <= start <= j <= n,
            n == s@.len(),
            forall|k: int| start <= k < j ==> !(#[trigger] s@[k] == '\n' && k + 1 < n && s@[k + 1] == '\n'),
            split_blank(s@) =~~= parts.deep_view() + split_blank(s@.subrange(start as int, n as int)),
        decreases n - j,
    {
        if s.get_char(j) == '\n' && j + 1 < n && s.get_char(j + 1) == '\n' {
            let seg = s.substring_char(start, j);
            proof {
                let tail = s@.subrange(start as int, n as int);
                assert(tail[j - start] == '\n');
                assert(tail[j - start + 1] == '\n');
                assert forall|k: int| 0 <= k < j - start implies !(#[trigger] tail[k] == '\n' && tail[k + 1]
                    == '\n') by {
                    assert(tail[k] == s@[start + k]);
                    assert(tail[k + 1] == s@[start + k + 1]);
                }
                lemma_split_blank_head(tail, j - start);
                assert(tail.subrange(0, j - start) =~= s@.subrange(start as int, j as int));
                assert(tail.skip(j - start + 2) =~= s@.subrange(j + 2, n as int));
            }
            let owned = seg.to_owned();
            parts.push(owned);
            start = j + 2;
            j = j + 2;
        } else {
            j = j + 1;
        }
    }
    let last = s.substring_char(start, n);
    proof {
        let tail = s@.subrange(start as int, n as int);
        assert forall|k: int| 0 <= k < tail.len() - 1 implies !(#[trigger] tail[k] == '\n' && tail[k + 1]
            == '\n') by {
            assert(tail[k] == s@[start + k]);
            assert(tail[k + 1] == s@[start + k + 1]);
        }
        lemma_split_blank_no_sep(tail);
        lemma_split_blank_nonempty(s@);
    }
    let owned = last.to_owned();
    parts.push(owned);
    parts
}

/// The well-known token the firmware boot manager's own record carries.
pub open spec fn fwbootmgr_token() -> Seq<char> {
    "{fwbootmgr}"@
}

/// The fixed label given to the firmware boot manager's record.
pub open spec fn uefi_label() -> Seq<char> {
    "UEFI Loader"@
}

/// The trimmed, nonempty lines of a record, in order.
pub open spec fn trimmed_nonempty(lines: Seq<Seq<char>>) -> Seq<Seq<char>>
    decreases lines.len(),
{
    if lines.len() == 0 {
        Seq::<Seq<char>>::empty()
    } else {
        let rest = trimmed_nonempty(lines.drop_last());
        let t = trim_spec(lines.last());
        if t.len() > 0 {
            rest.push(t)
        } else {
            rest
        }
    }
}

/// The timeout a dump value denotes: its decimal reading, or zero when the
/// value is not a plain decimal numeral that fits.
pub open spec fn timeout_of(value: Seq<char>) -> u32 {
    if is_u32_numeral(value) {
        dec_value(value) as u32
    } else {
        0
    }
}

/// The record parser's running state: the record built so far, and whether
/// the previous line belonged to a display-order continuation.
#[verifier::ext_equal]
pub struct BcdParseStateV {
    pub entry: BcdEntryV,
    pub in_order: bool,
}

/// One trimmed, nonempty line applied to the record.  A line with no blank
/// is a continuation of a running display-order list, or noise otherwise;
/// a recognized key sets its field; the `displayorder` key also opens a
/// continuation; an unrecognized key is the record's identifier line when
/// its value is in the known order set or is the boot manager's token, and
/// the boot manager's record gets the fixed loader label as description.
pub open spec fn bcd_line_step(
    st: BcdParseStateV,
    t: Seq<char>,
    known: Seq<Seq<char>>,
) -> BcdParseStateV {
    let sp = find_char(t, ' ');
    if sp == -1 {
        if st.in_order {
            BcdParseStateV {
                entry: BcdEntryV { displayorder: st.entry.displayorder.push(t), ..st.entry },
                in_order: true,
            }
        } else {
            st
        }
    } else {
        let key = t.subrange(0, sp);
        let value = trim_spec(t.skip(sp + 1));
        if key == "device"@ {
            BcdParseStateV { entry: BcdEntryV { device: Some(value), ..st.entry }, in_order: false }
        } else if key == "path"@ {
            BcdParseStateV { entry: BcdEntryV { path: Some(value), ..st.entry }, in_order: false }
        } else if key == "description"@ {
            BcdParseStateV {
                entry: BcdEntryV { description: Some(value), ..st.entry },
                in_order: false,
            }
        } else if key == "locale"@ {
            BcdParseStateV { entry: BcdEntryV { locale: Some(value), ..st.entry }, in_order: false }
        } else if key == "inherit"@ {
            BcdParseStateV {
                entry: BcdEntryV { inherit: Some(value), ..st.entry },
                in_order: false,
            }
        } else if key == "default"@ {
            BcdParseStateV {
                entry: BcdEntryV { default: Some(value), ..st.entry },
                in_order: false,
            }
        } else if key == "resumeobject"@ {
            BcdParseStateV {
                entry: BcdEntryV { resumeobject: Some(value), ..st.entry },
                in_order: false,
            }
        } else if key == "toolsdisplayorder"@ {
            BcdParseStateV {
                entry: BcdEntryV { toolsdisplayorder: Some(value), ..st.entry },
                in_order: false,
            }
        } else if key == "timeout"@ {
            BcdParseStateV {
                entry: BcdEntryV { timeout: timeout_of(value), ..st.entry },
                in_order: false,
            }
        } else if key == "displayorder"@ {
            BcdParseStateV {
                entry: BcdEntryV { displayorder: st.entry.displayorder.push(value), ..st.entry },
                in_order: true,
            }
        } else {
            let new_id = if known.contains(value) || value == fwbootmgr_token() {
                Some(value)
            } else {
                st.entry.id
            };
            let new_desc = if new_id == Some(fwbootmgr_token()) {
                Some(uefi_label())
            } else {
                st.entry.description
            };
            BcdParseStateV {
                entry: BcdEntryV { id: new_id, description: new_desc, ..st.entry },
                in_order: false,
            }
        }
    }
}

/// The record parser run over a line list.
pub open spec fn bcd_fold(lines: Seq<Seq<char>>, known: Seq<Seq<char>>) -> BcdParseStateV
    decreases lines.len(),
{
    if lines.len() == 0 {
        BcdParseStateV { entry: empty_bcd_entry(), in_order: false }
    } else {
        bcd_line_step(bcd_fold(lines.drop_last(), known), lines.last(), known)
    }
}

/// The record a section of the dump denotes, under a known order set.
pub open spec fn parse_record_spec(sec: Seq<char>, known: Seq<Seq<char>>) -> BcdEntryV {
    bcd_fold(trimmed_nonempty(split_on(sec, '\n')), known).entry
}

/// Does the identifier sequence `dv` hold `s`?
fn vec_contains_str(order: &Vec<String>, s: &str) -> (r: bool)
    ensures
        r == order.deep_view().contains(s@),
{
    let n = order.len();
    let mut j: usize = 0;
    while j < n
        invariant
            0 <= j <= n,
            n == order@.len(),
            forall|k: int| 0 <= k < j ==> order.deep_view()[k] != s@,
        decreases n - j,
    {
        proof {
            assert(order.deep_view()[j as int] == order@[j as int]@);
        }
        if str_eq(order[j].as_str(), s) {
            return true;
        }
        j = j + 1;
    }
    proof {
        assert(forall|k: int| 0 <= k < order.deep_view().len() ==> order.deep_view()[k] != s@);
    }
    false
}

/// Apply one trimmed, nonempty line to the record being built.
fn bcd_apply_line(e: BcdEntry, in_order: bool, t: &str, order: &Vec<String>) -> (r: (
    BcdEntry,
    bool,
))
    ensures
        ({
            let st = bcd_line_step(
                BcdParseStateV { entry: e@, in_order },
                t@,
                order.deep_view(),
            );
            r.0@ == st.entry && r.1 == st.in_order
        }),
{
    let ghost st0 = BcdParseStateV { entry: e@, in_order };
    let mut e = e;
    let found = find_char_in(t, ' ');
    proof {
        crate::text::lemma_find_char_props(t@, ' ');
    }
    match found {
        None => {
            if in_order {
                let ghost pre = e.displayorder.deep_view();
                e.displayorder.push(t.to_owned());
                proof {
                    assert(e.displayorder.deep_view() =~~= pre.push(t@));
                }
                (e, true)
            } else {
                (e, in_order)
            }
        },
        Some(sp) => {
            let tn: usize = t.unicode_len();
            let key = t.substring_char(0, sp);
            let value_raw = t.substring_char(sp + 1, tn);
            proof {
                assert(key@ =~= t@.subrange(0, find_char(t@, ' ')));
                assert(value_raw@ =~= t@.skip(find_char(t@, ' ') + 1));
            }
            let value = trim_str(value_raw);
            if str_eq(key, "device") {
                e.device = Some(value.to_owned());
                (e, false)
            } else if str_eq(key, "path") {
                e.path = Some(value.to_owned());
                (e, false)
            } else if str_eq(key, "description") {
                e.description = Some(value.to_owned());
                (e, false)
            } else if str_eq(key, "locale") {
                e.locale = Some(value.to_owned());
                (e, false)
            } else if str_eq(key, "inherit") {
                e.inherit = Some(value.to_owned());
                (e, false)
            } else if str_eq(key, "default") {
                e.default = Some(value.to_owned());
                (e, false)
            } else if str_eq(key, "resumeobject") {
                e.resumeobject = Some(value.to_owned());
                (e, false)
            } else if str_eq(key, "toolsdisplayorder") {
                e.toolsdisplayorder = Some(value.to_owned());
                (e, false)
            } else if str_eq(key, "timeout") {
                e.timeout = match parse_u32(value) {
                    Some(v) => v,
                    None => 0,
                };
                (e, false)
            } else if str_eq(key, "displayorder") {
                let ghost pre = e.displayorder.deep_view();
                e.displayorder.push(value.to_owned());
                proof {
                    assert(e.displayorder.deep_view() =~~= pre.push(
                        trim_spec(t@.skip(find_char(t@, ' ') + 1)),
                    ));
                }
                (e, true)
            } else {
                let hit = vec_contains_str(order, value) || str_eq(value, "{fwbootmgr}");
                if hit {
                    e.id = Some(value.to_owned());
                }
                let is_mgr = match &e.id {
                    Some(x) => str_eq(x.as_str(), "{fwbootmgr}"),
                    None => false,
                };
                if is_mgr {
                    let label = "UEFI Loader";
                    e.description = Some(label.to_owned());
                }
                (e, false)
            }
        },
    }
}

/// Parse one record of the dump under a known order set: trimmed, nonempty
/// lines applied in order to an initially empty record.
pub fn parse_entry(section: &str, order: &Vec<String>) -> (r: BcdEntry)
    ensures
        r@ == parse_record_spec(section@, order.deep_view()),
{
    let raw = split_str_on(section, '\n');
    let mut e = BcdEntry::empty();
    let mut in_order = false;
    let mut i: usize = 0;
    proof {
        assert(raw.deep_view().take(0) =~~= Seq::<Seq<char>>::empty());
        assert(trimmed_nonempty(Seq::<Seq<char>>::empty()) =~~= Seq::<Seq<char>>::empty());
    }
    while i < raw.len()
        invariant
            0 <= i <= raw@.len(),
            raw.deep_view() =~~= split_on(section@, '\n'),
            e@ == bcd_fold(
                trimmed_nonempty(raw.deep_view().take(i as int)),
                order.deep_view(),
            ).entry,
            in_order == bcd_fold(
                trimmed_nonempty(raw.deep_view().take(i as int)),
                order.deep_view(),
            ).in_order,
        decreases raw@.len() - i,
    {
        proof {
            assert(raw.deep_view()[i as int] == raw@[i as int]@);
            let rv = raw.deep_view();
            assert(rv.take(i + 1).drop_last() =~~= rv.take(i as int));
            assert(rv.take(i + 1).last() == rv[i as int]);
        }
        let ghost prev = trimmed_nonempty(raw.deep_view().take(i as int));
        let t = trim_str(raw[i].as_str());
        if t.unicode_len() > 0 {
            proof {
                assert(trimmed_nonempty(raw.deep_view().take(i + 1)) =~~= prev.push(t@));
                assert(prev.push(t@).drop_last() =~~= prev);
                assert(prev.push(t@).last() == t@);
            }
            let pair = bcd_apply_line(e, in_order, t, order);
            e = pair.0;
            in_order = pair.1;
        } else {
            proof {
                assert(trimmed_nonempty(raw.deep_view().take(i + 1)) =~~= prev);
            }
        }
        i = i + 1;
    }
    proof {
        assert(raw.deep_view().take(i as int) =~~= raw.deep_view());
    }
    e
}

/// The record list a whole dump denotes: the first record is the boot
/// manager's own and is parsed with an empty order set; every further
/// record is parsed with the first record's display order.
pub open spec fn parse_bcd_spec(out: Seq<char>) -> Seq<BcdEntryV> {
    let secs = split_sections_spec(out);
    let first = parse_record_spec(secs[0], Seq::<Seq<char>>::empty());
    Seq::new(
        secs.len(),
        |i: int|
            if i == 0 {
                first
            } else {
                parse_record_spec(secs[i], first.displayorder)
            },
    )
}

/// Parse the tool's whole dump into its records.
pub fn parse_bcd_entries(output: &str) -> (r: Vec<BcdEntry>)
    ensures
        bcd_view(r@) == parse_bcd_spec(output@),
        r@.len() >= 1,
{
    let sections = split_sections(output);
    let empty_order: Vec<String> = Vec::new();
    proof {
        assert(sections.deep_view()[0] == sections@[0]@);
        assert(empty_order.deep_view() =~~= Seq::<Seq<char>>::empty());
    }
    let first = parse_entry(sections[0].as_str(), &empty_order);
    let mut entries: Vec<BcdEntry> = Vec::new();
    entries.push(first);
    let mut i: usize = 1;
    while i < sections.len()
        invariant
            1 <= i <= sections@.len(),
            sections.deep_view() =~~= split_sections_spec(output@),
            entries@.len() == i,
            entries@[0]@ == parse_record_spec(
                split_sections_spec(output@)[0],
                Seq::<Seq<char>>::empty(),
            ),
            forall|k: int| 0 <= k < i ==> #[trigger] entries@[k]@ == parse_bcd_spec(output@)[k],
        decreases sections@.len() - i,
    {
        proof {
            assert(sections.deep_view()[i as int] == sections@[i as int]@);
        }
        let next = parse_entry(sections[i].as_str(), &entries[0].displayorder);
        entries.push(next);
        i = i + 1;
    }
    proof {
        assert(bcd_view(entries@) =~~= parse_bcd_spec(output@));
    }
    entries
}

/// Does an entry match a firmware selector: its description or identifier
/// equals the selector, case-insensitively? Absent fields never match.
pub open spec fn fw_matches(e: BcdEntryV, sel: Seq<char>) -> bool {
    (match e.description {
        Some(d) => lower_of(d) == lower_of(sel),
        None => false,
    }) || (match e.id {
        Some(x) => lower_of(x) == lower_of(sel),
        None => false,
    })
}

/// Is some selectable firmware entry matched by the selector?  The boot
/// manager's own record, the first, is not a selectable target.
pub open spec fn fw_entry_found(entries: Seq<BcdEntryV>, sel: Seq<char>) -> bool {
    exists|i: int| 1 <= i < entries.len() && fw_matches(#[trigger] entries[i], sel)
}

/// Does the selector match one firmware entry?
fn fw_entry_matches(e: &BcdEntry, sel_lower: &str, sel: &str) -> (r: bool)
    requires
        sel_lower@ == lower_of(sel@),
    ensures
        r == fw_matches(e@, sel@),
{
    let by_desc = match &e.description {
        Some(d) => {
            let dl = lowercase(d.as_str());
            str_eq(dl.as_str(), sel_lower)
        },
        None => false,
    };
    if by_desc {
        return true;
    }
    match &e.id {
        Some(x) => {
            let xl = lowercase(x.as_str());
            str_eq(xl.as_str(), sel_lower)
        },
        None => false,
    }
}

/// Decide whether `selector` names a selectable firmware entry, matching
/// descriptions and identifiers case-insensitively and skipping the boot
/// manager's own record.
pub fn find_fw_entry(entries: &Vec<BcdEntry>, selector: &str) -> (r: bool)
    ensures
        r == fw_entry_found(bcd_view(entries@), selector@),
{
    let sel_lower = lowercase(selector);
    let n = entries.len();
    if n < 1 {
        return false;
    }
    let mut j: usize = 1;
    while j < n
        invariant
            1 <= j <= n,
            n == entries@.len(),
            sel_lower@ == lower_of(selector@),
            forall|k: int| 1 <= k < j ==> !fw_matches(#[trigger] bcd_view(entries@)[k], selector@),
        decreases n - j,
    {
        proof {
            assert(bcd_view(entries@)[j as int] == entries@[j as int]@);
        }
        if fw_entry_matches(&entries[j], sel_lower.as_str(), selector) {
            return true;
        }
        j = j + 1;
    }
    false
}

} // verus!
