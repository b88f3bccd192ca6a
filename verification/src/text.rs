//! Character-sequence utilities shared by the parsers and writers: trimming,
//! line splitting and joining, first-occurrence search, substring search and
//! decimal numerals, each with its mathematical definition over `Seq<char>`.

use vstd::prelude::*;
use vstd::string::StrSliceExecFns;
use vstd::string::StringExecFns;

verus! {

/// The whitespace characters this library trims: the ASCII blank set.
pub open spec fn is_space_char(c: char) -> bool {
    c == ' ' || c == '\t' || c == '\r' || c == '\n' || c == '\u{b}' || c == '\u{c}'
}

/// Characters trimmed from a reported device path before comparing it:
/// blanks plus the control and no-break artifacts volume queries leave behind.
pub open spec fn is_artifact_char(c: char) -> bool {
    is_space_char(c) || c == '\u{0}' || c == '\u{a0}' || c == '\u{feff}'
}

/// `s` without its leading blank characters.
pub open spec fn trim_start_spec(s: Seq<char>) -> Seq<char>
    decreases s.len(),
{
    if s.len() > 0 && is_space_char(s[0]) {
        trim_start_spec(s.drop_first())
    } else {
        s
    }
}

/// `s` without its trailing blank characters.
pub open spec fn trim_end_spec(s: Seq<char>) -> Seq<char>
    decreases s.len(),
{
    if s.len() > 0 && is_space_char(s.last()) {
        trim_end_spec(s.drop_last())
    } else {
        s
    }
}

/// `s` without leading and trailing blank characters.
pub open spec fn trim_spec(s: Seq<char>) -> Seq<char> {
    trim_end_spec(trim_start_spec(s))
}

/// `s` without its trailing artifact characters (device-path cleanup).
pub open spec fn trim_end_artifacts_spec(s: Seq<char>) -> Seq<char>
    decreases s.len(),
{
    if s.len() > 0 && is_artifact_char(s.last()) {
        trim_end_artifacts_spec(s.drop_last())
    } else {
        s
    }
}

/// Does `s` begin with `p`?
pub open spec fn starts_with_spec(s: Seq<char>, p: Seq<char>) -> bool {
    p.len() <= s.len() && s.subrange(0, p.len() as int) == p
}

/// Index of the first occurrence of `c` in `s`, or -1 if there is none.
pub open spec fn find_char(s: Seq<char>, c: char) -> int
    decreases s.len(),
{
    if s.len() == 0 {
        -1
    } else if s[0] == c {
        0
    } else {
        let r = find_char(s.drop_first(), c);
        if r == -1 {
            -1
        } else {
            r + 1
        }
    }
}

/// Does `p` occur in `s` starting at index `i`?
pub open spec fn sub_at(s: Seq<char>, p: Seq<char>, i: int) -> bool {
    0 <= i && i + p.len() <= s.len() && s.subrange(i, i + p.len()) == p
}

/// Does `p` occur anywhere in `s`?
pub open spec fn has_sub(s: Seq<char>, p: Seq<char>) -> bool {
    exists|i: int| sub_at(s, p, i)
}

/// Index of the first occurrence of `p` in `s`, or -1 if there is none.
pub open spec fn find_sub(s: Seq<char>, p: Seq<char>) -> int
    decreases s.len(),
{
    if p.len() > s.len() {
        -1
    } else if p.len() == 0 {
        0
    } else if s.subrange(0, p.len() as int) == p {
        0
    } else {
        let r = find_sub(s.drop_first(), p);
        if r == -1 {
            -1
        } else {
            r + 1
        }
    }
}

/// The segments of `s` between occurrences of `sep`: splitting the empty
/// sequence yields one empty segment, and every separator adds a segment.
pub open spec fn split_on(s: Seq<char>, sep: char) -> Seq<Seq<char>>
    decreases s.len(),
{
    if s.len() == 0 {
        seq![Seq::<char>::empty()]
    } else if s[0] == sep {
        seq![Seq::<char>::empty()] + split_on(s.drop_first(), sep)
    } else {
        let rest = split_on(s.drop_first(), sep);
        seq![seq![s[0]] + rest[0]] + rest.drop_first()
    }
}

/// The segments of `ls` joined with `sep` between neighbours.
pub open spec fn join_with(ls: Seq<Seq<char>>, sep: char) -> Seq<char>
    decreases ls.len(),
{
    if ls.len() == 0 {
        Seq::<char>::empty()
    } else if ls.len() == 1 {
        ls[0]
    } else {
        ls[0] + seq![sep] + join_with(ls.drop_first(), sep)
    }
}

/// Splitting always yields at least one segment.
pub proof fn lemma_split_on_nonempty(s: Seq<char>, sep: char)
    ensures
        split_on(s, sep).len() >= 1,
    decreases s.len(),
{
    if s.len() > 0 {
        lemma_split_on_nonempty(s.drop_first(), sep);
    }
}

/// No segment of a split contains the separator.
pub proof fn lemma_split_on_seg_free(s: Seq<char>, sep: char)
    ensures
        forall|i: int, k: int|
            0 <= i < split_on(s, sep).len() && 0 <= k < split_on(s, sep)[i].len()
                ==> split_on(s, sep)[i][k] != sep,
    decreases s.len(),
{
    if s.len() > 0 {
        lemma_split_on_seg_free(s.drop_first(), sep);
        lemma_split_on_nonempty(s.drop_first(), sep);
    }
}

/// Joining the segments of a split restores the original sequence.
pub proof fn lemma_join_split_id(s: Seq<char>, sep: char)
    ensures
        join_with(split_on(s, sep), sep) =~= s,
    decreases s.len(),
{
    if s.len() == 0 {
        assert(split_on(s, sep) == seq![Seq::<char>::empty()]);
        assert(join_with(seq![Seq::<char>::empty()], sep) == Seq::<char>::empty());
        assert(join_with(split_on(s, sep), sep) =~= s);
    } else if s[0] == sep {
        lemma_join_split_id(s.drop_first(), sep);
        lemma_split_on_nonempty(s.drop_first(), sep);
        let parts = split_on(s, sep);
        assert(parts[0] == Seq::<char>::empty());
        assert(parts.drop_first() =~= split_on(s.drop_first(), sep));
        assert(parts.len() >= 2);
        assert(join_with(parts, sep) == parts[0] + seq![sep] + join_with(
            parts.drop_first(),
            sep,
        ));
        assert(join_with(split_on(s, sep), sep) =~= s);
    } else {
        lemma_join_split_id(s.drop_first(), sep);
        lemma_split_on_nonempty(s.drop_first(), sep);
        let rest = split_on(s.drop_first(), sep);
        let parts = split_on(s, sep);
        assert(parts[0] == seq![s[0]] + rest[0]);
        if rest.len() == 1 {
            assert(parts =~= seq![seq![s[0]] + rest[0]]);
            assert(join_with(parts, sep) == seq![s[0]] + rest[0]);
            assert(join_with(rest, sep) == rest[0]);
            assert(join_with(split_on(s, sep), sep) =~= s);
        } else {
            assert(parts.drop_first() =~= rest.drop_first());
            assert(parts.len() >= 2);
            assert(join_with(parts, sep) == parts[0] + seq![sep] + join_with(
                parts.drop_first(),
                sep,
            ));
            assert(join_with(rest, sep) == rest[0] + seq![sep] + join_with(
                rest.drop_first(),
                sep,
            ));
            assert(rest[0] + seq![sep] + join_with(rest.drop_first(), sep) == s.drop_first());
            assert(join_with(parts, sep) == (seq![s[0]] + rest[0]) + seq![sep] + join_with(
                rest.drop_first(),
                sep,
            ));
            assert((seq![s[0]] + rest[0]) + seq![sep] + join_with(rest.drop_first(), sep) =~= seq![
                s[0],
            ] + (rest[0] + seq![sep] + join_with(rest.drop_first(), sep)));
            assert(seq![s[0]] + s.drop_first() =~= s);
            assert(join_with(split_on(s, sep), sep) =~= s);
        }
    }
}

/// If no character of `s` is the separator, the split is the single segment `s`.
pub proof fn lemma_split_on_no_sep(s: Seq<char>, sep: char)
    requires
        forall|k: int| 0 <= k < s.len() ==> s[k] != sep,
    ensures
        split_on(s, sep) =~= seq![s],
    decreases s.len(),
{
    if s.len() == 0 {
        assert(split_on(s, sep) == seq![Seq::<char>::empty()]);
        assert(split_on(s, sep) =~~= seq![s]);
    } else {
        lemma_split_on_no_sep(s.drop_first(), sep);
        let rest = split_on(s.drop_first(), sep);
        assert(rest =~~= seq![s.drop_first()]);
        assert(rest.drop_first() =~= Seq::<Seq<char>>::empty());
        assert(seq![s[0]] + rest[0] =~= s);
        assert(split_on(s, sep) =~~= seq![seq![s[0]] + rest[0]] + rest.drop_first());
        assert(split_on(s, sep) =~~= seq![s]);
    }
}

/// Peeling the first separator-free segment off the front of a split.
pub proof fn lemma_split_on_head(s: Seq<char>, sep: char, j: int)
    requires
        0 <= j < s.len(),
        s[j] == sep,
        forall|k: int| 0 <= k < j ==> s[k] != sep,
    ensures
        split_on(s, sep) =~= seq![s.subrange(0, j)] + split_on(
            s.subrange(j + 1, s.len() as int),
            sep,
        ),
    decreases s.len(),
{
    if j == 0 {
        assert(s.drop_first() =~= s.subrange(1, s.len() as int));
        assert(s.subrange(0, 0) =~= Seq::<char>::empty());
    } else {
        let t = s.drop_first();
        lemma_split_on_head(t, sep, j - 1);
        lemma_split_on_nonempty(t.subrange(j, t.len() as int), sep);
        let rest = split_on(t, sep);
        assert(t.subrange(j, t.len() as int) =~= s.subrange(j + 1, s.len() as int));
        assert(rest[0] == t.subrange(0, j - 1));
        assert(seq![s[0]] + t.subrange(0, j - 1) =~= s.subrange(0, j));
        assert(split_on(s, sep) =~= seq![seq![s[0]] + rest[0]] + rest.drop_first());
        assert(rest.drop_first() =~= split_on(s.subrange(j + 1, s.len() as int), sep));
    }
}

/// Joining one more segment onto a nonempty prefix of segments.
pub proof fn lemma_join_with_push(ls: Seq<Seq<char>>, sep: char, i: int)
    requires
        1 <= i < ls.len(),
    ensures
        join_with(ls.subrange(0, i + 1), sep) =~= join_with(ls.subrange(0, i), sep) + seq![sep]
            + ls[i],
    decreases i,
{
    if i == 1 {
        assert(ls.subrange(0, 2) =~= seq![ls[0], ls[1]]);
        assert(ls.subrange(0, 1) =~= seq![ls[0]]);
        assert(seq![ls[0], ls[1]].drop_first() =~= seq![ls[1]]);
        assert(join_with(seq![ls[0], ls[1]], sep) == ls[0] + seq![sep] + join_with(
            seq![ls[1]],
            sep,
        ));
        assert(join_with(seq![ls[1]], sep) == ls[1]);
        assert(join_with(seq![ls[0]], sep) == ls[0]);
    } else {
        lemma_join_with_push(ls.drop_first(), sep, i - 1);
        let a = ls.subrange(0, i + 1);
        let b = ls.subrange(0, i);
        assert(a.drop_first() =~= ls.drop_first().subrange(0, i));
        assert(b.drop_first() =~= ls.drop_first().subrange(0, i - 1));
        assert(a[0] == ls[0]);
        assert(b[0] == ls[0]);
        assert(ls.drop_first()[i - 1] == ls[i]);
        assert(a.len() >= 2);
        assert(b.len() >= 2);
        assert(join_with(a, sep) == a[0] + seq![sep] + join_with(a.drop_first(), sep));
        assert(join_with(b, sep) == b[0] + seq![sep] + join_with(b.drop_first(), sep));
    }
}

/// Is `c` a decimal digit?
pub open spec fn is_digit_char(c: char) -> bool {
    c == '0' || c == '1' || c == '2' || c == '3' || c == '4' || c == '5' || c == '6' || c == '7'
        || c == '8' || c == '9'
}

/// The numeric value of a digit character (0 for anything else).
pub open spec fn digit_val(c: char) -> nat {
    if c == '1' {
        1
    } else if c == '2' {
        2
    } else if c == '3' {
        3
    } else if c == '4' {
        4
    } else if c == '5' {
        5
    } else if c == '6' {
        6
    } else if c == '7' {
        7
    } else if c == '8' {
        8
    } else if c == '9' {
        9
    } else {
        0
    }
}

/// Are all characters of `s` decimal digits?
pub open spec fn all_digits(s: Seq<char>) -> bool {
    forall|k: int| 0 <= k < s.len() ==> is_digit_char(#[trigger] s[k])
}

/// The value of `s` read as a decimal numeral, most significant digit first.
pub open spec fn dec_value(s: Seq<char>) -> nat
    decreases s.len(),
{
    if s.len() == 0 {
        0
    } else {
        dec_value(s.drop_last()) * 10 + digit_val(s.last())
    }
}

/// A selector is an index selector when it is a plain decimal numeral whose
/// value fits the platform's index type.
pub open spec fn is_index_selector(s: Seq<char>) -> bool {
    s.len() > 0 && all_digits(s) && dec_value(s) <= usize::MAX as nat
}

/// The digit character for a value below ten.
pub open spec fn digit_char(d: nat) -> char {
    if d == 0 {
        '0'
    } else if d == 1 {
        '1'
    } else if d == 2 {
        '2'
    } else if d == 3 {
        '3'
    } else if d == 4 {
        '4'
    } else if d == 5 {
        '5'
    } else if d == 6 {
        '6'
    } else if d == 7 {
        '7'
    } else if d == 8 {
        '8'
    } else {
        '9'
    }
}

/// The decimal numeral of `n`, without leading zeros (`0` for zero).
pub open spec fn dec_digits(n: nat) -> Seq<char>
    decreases n,
{
    if n < 10 {
        seq![digit_char(n)]
    } else {
        dec_digits(n / 10) + seq![digit_char(n % 10)]
    }
}

/// Reading more digits never shrinks the value of a numeral prefix.
pub proof fn lemma_dec_value_prefix_mono(s: Seq<char>, i: int)
    requires
        0 <= i <= s.len(),
    ensures
        dec_value(s) >= dec_value(s.subrange(0, i)),
    decreases s.len() - i,
{
    if i < s.len() {
        lemma_dec_value_prefix_mono(s, i + 1);
        let p = s.subrange(0, i + 1);
        assert(p.drop_last() =~= s.subrange(0, i));
        assert(dec_value(p) == dec_value(s.subrange(0, i)) * 10 + digit_val(p.last()));
    } else {
        assert(s.subrange(0, i) =~= s);
    }
}

/// Is `c` in the blank set the library trims?
pub fn is_space(c: char) -> (r: bool)
    ensures
        r == is_space_char(c),
{
    c == ' ' || c == '\t' || c == '\r' || c == '\n' || c == '\u{b}' || c == '\u{c}'
}

/// Is `c` a blank or one of the artifact characters device queries leave?
pub fn is_artifact(c: char) -> (r: bool)
    ensures
        r == is_artifact_char(c),
{
    is_space(c) || c == '\u{0}' || c == '\u{a0}' || c == '\u{feff}'
}

/// Character-for-character equality of two string slices.
pub fn str_eq(a: &str, b: &str) -> (r: bool)
    ensures
        r == (a@ == b@),
{
    let na: usize = a.unicode_len();
    let nb: usize = b.unicode_len();
    if na != nb {
        return false;
    }
    let mut i: usize = 0;
    while i < na
        invariant
            0 <= i <= na,
            na == a@.len(),
            na == b@.len(),
            forall|k: int| 0 <= k < i ==> a@[k] == b@[k],
        decreases na - i,
    {
        if a.get_char(i) != b.get_char(i) {
            return false;
        }
        i = i + 1;
    }
    proof {
        assert(a@ =~= b@);
    }
    true
}

/// Does `s` begin with `p`, character for character?
pub fn str_starts_with(s: &str, p: &str) -> (r: bool)
    ensures
        r == starts_with_spec(s@, p@),
{
    let n: usize = s.unicode_len();
    let m: usize = p.unicode_len();
    if m > n {
        return false;
    }
    let mut i: usize = 0;
    while i < m
        invariant
            0 <= i <= m <= n,
            n == s@.len(),
            m == p@.len(),
            forall|k: int| 0 <= k < i ==> s@[k] == p@[k],
        decreases m - i,
    {
        if s.get_char(i) != p.get_char(i) {
            proof {
                assert(s@.subrange(0, p@.len() as int)[i as int] != p@[i as int]);
            }
            return false;
        }
        i = i + 1;
    }
    proof {
        assert(s@.subrange(0, p@.len() as int) =~= p@);
    }
    true
}

/// A blank-free prefix and suffix pin down what trimming the start yields.
pub proof fn lemma_trim_start_at(s: Seq<char>, a: int)
    requires
        0 <= a <= s.len(),
        forall|k: int| 0 <= k < a ==> is_space_char(#[trigger] s[k]),
        a < s.len() ==> !is_space_char(s[a]),
    ensures
        trim_start_spec(s) =~= s.subrange(a, s.len() as int),
    decreases a,
{
    if a == 0 {
        if s.len() > 0 && is_space_char(s[0]) {
            assert(false);
        }
        assert(s.subrange(0, s.len() as int) =~= s);
    } else {
        let t = s.drop_first();
        lemma_trim_start_at(t, a - 1);
        assert(t.subrange(a - 1, t.len() as int) =~= s.subrange(a, s.len() as int));
    }
}

/// A blank-free boundary pins down what trimming the end yields.
pub proof fn lemma_trim_end_at(s: Seq<char>, b: int)
    requires
        0 <= b <= s.len(),
        forall|k: int| b <= k < s.len() ==> is_space_char(#[trigger] s[k]),
        b > 0 ==> !is_space_char(s[b - 1]),
    ensures
        trim_end_spec(s) =~= s.subrange(0, b),
    decreases s.len() - b,
{
    if b == s.len() {
        if s.len() > 0 && is_space_char(s.last()) {
            assert(false);
        }
        assert(s.subrange(0, b) =~= s);
    } else {
        let t = s.drop_last();
        assert(is_space_char(s.last()));
        lemma_trim_end_at(t, b);
        assert(t.subrange(0, b) =~= s.subrange(0, b));
    }
}

/// The artifact analog of `lemma_trim_end_at`.
pub proof fn lemma_trim_end_artifacts_at(s: Seq<char>, b: int)
    requires
        0 <= b <= s.len(),
        forall|k: int| b <= k < s.len() ==> is_artifact_char(#[trigger] s[k]),
        b > 0 ==> !is_artifact_char(s[b - 1]),
    ensures
        trim_end_artifacts_spec(s) =~= s.subrange(0, b),
    decreases s.len() - b,
{
    if b == s.len() {
        if s.len() > 0 && is_artifact_char(s.last()) {
            assert(false);
        }
        assert(s.subrange(0, b) =~= s);
    } else {
        let t = s.drop_last();
        assert(is_artifact_char(s.last()));
        lemma_trim_end_artifacts_at(t, b);
        assert(t.subrange(0, b) =~= s.subrange(0, b));
    }
}

/// `s` with leading and trailing blanks removed.
pub fn trim_str<'a>(s: &'a str) -> (r: &'a str)
    ensures
        r@ == trim_spec(s@),
{
    let n: usize = s.unicode_len();
    let mut a: usize = 0;
    while a < n && is_space(s.get_char(a))
        invariant
            0 <= a <= n,
            n == s@.len(),
            forall|k: int| 0 <= k < a ==> is_space_char(#[trigger] s@[k]),
        decreases n - a,
    {
        a = a + 1;
    }
    let mut b: usize = n;
    while b > a && is_space(s.get_char(b - 1))
        invariant
            a <= b <= n,
            n == s@.len(),
            forall|k: int| b <= k < n ==> is_space_char(#[trigger] s@[k]),
        decreases b,
    {
        b = b - 1;
    }
    proof {
        lemma_trim_start_at(s@, a as int);
        let t = s@.subrange(a as int, n as int);
        if a == n {
            lemma_trim_end_at(t, 0);
        } else {
            lemma_trim_end_at(t, b - a);
        }
        assert(t.subrange(0, b - a) =~= s@.subrange(a as int, b as int));
    }
    s.substring_char(a, b)
}

/// `s` with trailing artifact characters removed.
pub fn trim_end_artifacts<'a>(s: &'a str) -> (r: &'a str)
    ensures
        r@ == trim_end_artifacts_spec(s@),
{
    let n: usize = s.unicode_len();
    let mut b: usize = n;
    while b > 0 && is_artifact(s.get_char(b - 1))
        invariant
            0 <= b <= n,
            n == s@.len(),
            forall|k: int| b <= k < n ==> is_artifact_char(#[trigger] s@[k]),
        decreases b,
    {
        b = b - 1;
    }
    proof {
        lemma_trim_end_artifacts_at(s@, b as int);
    }
    s.substring_char(0, b)
}

/// A scan that saw no `c` before `j` pins down `find_char`.
pub proof fn lemma_find_char_scan(s: Seq<char>, c: char, j: int)
    requires
        0 <= j <= s.len(),
        forall|k: int| 0 <= k < j ==> s[k] != c,
        j < s.len() ==> s[j] == c,
    ensures
        find_char(s, c) == if j < s.len() {
            j
        } else {
            -1
        },
    decreases j,
{
    if j == 0 {
    } else {
        lemma_find_char_scan(s.drop_first(), c, j - 1);
    }
}

/// Index of the first occurrence of `c` in `s`, if any.
pub fn find_char_in(s: &str, c: char) -> (r: Option<usize>)
    ensures
        match r {
            Some(j) => find_char(s@, c) == j as int,
            None => find_char(s@, c) == -1,
        },
{
    let n: usize = s.unicode_len();
    let mut j: usize = 0;
    while j < n && s.get_char(j) != c
        invariant
            0 <= j <= n,
            n == s@.len(),
            forall|k: int| 0 <= k < j ==> s@[k] != c,
        decreases n - j,
    {
        j = j + 1;
    }
    proof {
        lemma_find_char_scan(s@, c, j as int);
    }
    if j < n {
        Some(j)
    } else {
        None
    }
}

/// Does `p` occur in `s` at position `i`?
fn match_at(s: &str, p: &str, i: usize, n: usize, m: usize) -> (r: bool)
    requires
        n == s@.len(),
        m == p@.len(),
        i + m <= n,
    ensures
        r == sub_at(s@, p@, i as int),
{
    let mut k: usize = 0;
    while k < m
        invariant
            0 <= k <= m,
            i + m <= n,
            n == s@.len(),
            m == p@.len(),
            forall|t: int| 0 <= t < k ==> s@[i + t] == p@[t],
        decreases m - k,
    {
        if s.get_char(i + k) != p.get_char(k) {
            proof {
                assert(s@.subrange(i as int, i + p@.len())[k as int] != p@[k as int]);
            }
            return false;
        }
        k = k + 1;
    }
    proof {
        assert(s@.subrange(i as int, i + p@.len()) =~= p@);
    }
    true
}

/// A scan that saw no occurrence before `j` pins down `find_sub`.
pub proof fn lemma_find_sub_scan(s: Seq<char>, p: Seq<char>, j: int)
    requires
        p.len() >= 1,
        0 <= j,
        j + p.len() <= s.len() + 1,
        forall|i: int| 0 <= i < j ==> !sub_at(s, p, i),
        j + p.len() <= s.len() ==> sub_at(s, p, j),
    ensures
        find_sub(s, p) == if j + p.len() <= s.len() {
            j
        } else {
            -1
        },
    decreases j,
{
    if j == 0 {
        if p.len() <= s.len() {
            if s.subrange(0, p.len() as int) == p {
                assert(sub_at(s, p, 0));
            } else {
                assert(!sub_at(s, p, 0));
            }
        }
    } else {
        let t = s.drop_first();
        assert(!sub_at(s, p, 0));
        assert(s.subrange(0, p.len() as int) != p);
        assert forall|i: int| 0 <= i < j - 1 implies !#[trigger] sub_at(t, p, i) by {
            assert(!sub_at(s, p, i + 1));
            if i + p.len() <= t.len() {
                assert(t.subrange(i, i + p.len() as int) =~= s.subrange(
                    i + 1,
                    i + 1 + p.len() as int,
                ));
            }
        }
        if j + p.len() <= s.len() {
            assert(sub_at(s, p, j));
            assert(t.subrange(j - 1, j - 1 + p.len() as int) =~= s.subrange(j, j + p.len() as int));
            assert(sub_at(t, p, j - 1));
        }
        lemma_find_sub_scan(t, p, j - 1);
    }
}

/// `find_sub` finds an occurrence exactly when one exists.
pub proof fn lemma_find_sub_props(s: Seq<char>, p: Seq<char>)
    ensures
        find_sub(s, p) >= -1,
        find_sub(s, p) == -1 ==> !has_sub(s, p),
        find_sub(s, p) >= 0 ==> sub_at(s, p, find_sub(s, p)),
        find_sub(s, p) >= 0 ==> forall|i: int| 0 <= i < find_sub(s, p) ==> !sub_at(s, p, i),
    decreases s.len(),
{
    if p.len() > s.len() {
        assert(forall|i: int| !sub_at(s, p, i));
    } else if p.len() == 0 {
        assert(s.subrange(0, 0) =~= p);
        assert(sub_at(s, p, 0));
    } else if s.subrange(0, p.len() as int) == p {
        assert(sub_at(s, p, 0));
    } else {
        let t = s.drop_first();
        lemma_find_sub_props(t, p);
        let r = find_sub(t, p);
        assert(r >= -1);
        if r == -1 {
            assert forall|i: int| !#[trigger] sub_at(s, p, i) by {
                if 1 <= i && i + p.len() <= s.len() {
                    assert(!sub_at(t, p, i - 1));
                    assert(t.subrange(i - 1, i - 1 + p.len() as int) =~= s.subrange(
                        i,
                        i + p.len() as int,
                    ));
                }
            }
            assert(!has_sub(s, p));
        } else {
            assert(sub_at(t, p, r));
            assert(t.subrange(r, r + p.len() as int) =~= s.subrange(r + 1, r + 1 + p.len() as int));
            assert(sub_at(s, p, r + 1));
            assert forall|i: int| 0 <= i < r + 1 implies !#[trigger] sub_at(s, p, i) by {
                if i >= 1 {
                    assert(!sub_at(t, p, i - 1));
                    if i + p.len() <= s.len() {
                        assert(t.subrange(i - 1, i - 1 + p.len() as int) =~= s.subrange(
                            i,
                            i + p.len() as int,
                        ));
                    }
                }
            }
        }
    }
}

/// Index of the first occurrence of `p` in `s`, if any; `p` must be nonempty.
pub fn find_sub_in(s: &str, p: &str) -> (r: Option<usize>)
    requires
        p@.len() >= 1,
    ensures
        match r {
            Some(j) => find_sub(s@, p@) == j as int,
            None => find_sub(s@, p@) == -1,
        },
{
    let n: usize = s.unicode_len();
    let m: usize = p.unicode_len();
    if m > n {
        return None;
    }
    let bound: usize = n - m;
    let mut j: usize = 0;
    while j <= bound && !match_at(s, p, j, n, m)
        invariant
            0 <= j <= bound + 1,
            bound == n - m,
            m >= 1,
            m <= n,
            n == s@.len(),
            m == p@.len(),
            forall|i: int| 0 <= i < j ==> !sub_at(s@, p@, i),
        decreases bound + 1 - j,
    {
        j = j + 1;
    }
    proof {
        lemma_find_sub_scan(s@, p@, j as int);
    }
    if j <= bound {
        Some(j)
    } else {
        None
    }
}

/// Does `p` occur anywhere in `s`? `p` must be nonempty.
pub fn contains_sub(s: &str, p: &str) -> (r: bool)
    requires
        p@.len() >= 1,
    ensures
        r == has_sub(s@, p@),
{
    let r = find_sub_in(s, p);
    proof {
        lemma_find_sub_props(s@, p@);
    }
    r.is_some()
}

/// The segments of `s` between occurrences of `sep`, as owned strings.
pub fn split_str_on(s: &str, sep: char) -> (r: Vec<String>)
    ensures
        r.deep_view() =~~= split_on(s@, sep),
{
    let n: usize = s.unicode_len();
    let mut parts: Vec<String> = Vec::new();
    let mut start: usize = 0;
    let mut j: usize = 0;
    proof {
        assert(s@.subrange(0, n as int) =~= s@);
        assert(parts.deep_view() =~= Seq::<Seq<char>>::empty());
    }
    while j < n
        invariant
            0 <= start <= j <= n,
            n == s@.len(),
            forall|k: int| start <= k < j ==> s@[k] != sep,
            split_on(s@, sep) =~~= parts.deep_view() + split_on(
                s@.subrange(start as int, n as int),
                sep,
            ),
        decreases n - j,
    {
        if s.get_char(j) == sep {
            let seg = s.substring_char(start, j);
            proof {
                let tail = s@.subrange(start as int, n as int);
                lemma_split_on_head(tail, sep, j - start);
                assert(tail.subrange(0, j - start) =~= s@.subrange(start as int, j as int));
                assert(tail.subrange(j - start + 1, tail.len() as int) =~= s@.subrange(
                    j + 1,
                    n as int,
                ));
            }
            let owned = seg.to_owned();
            parts.push(owned);
            start = j + 1;
        }
        j = j + 1;
    }
    let last = s.substring_char(start, n);
    proof {
        let tail = s@.subrange(start as int, n as int);
        lemma_split_on_no_sep(tail, sep);
    }
    let owned = last.to_owned();
    parts.push(owned);
    parts
}

/// Parse `s` as a plain decimal index; `None` unless `s` is a nonempty
/// digit string whose value fits the index type.
pub fn parse_index(s: &str) -> (r: Option<usize>)
    ensures
        match r {
            Some(v) => is_index_selector(s@) && v as nat == dec_value(s@),
            None => !is_index_selector(s@),
        },
{
    let n: usize = s.unicode_len();
    if n == 0 {
        return None;
    }
    let mut i: usize = 0;
    let mut v: u128 = 0;
    while i < n
        invariant
            0 <= i <= n,
            n == s@.len(),
            n >= 1,
            forall|k: int| 0 <= k < i ==> is_digit_char(#[trigger] s@[k]),
            v as nat == dec_value(s@.subrange(0, i as int)),
            v <= usize::MAX as u128,
        decreases n - i,
    {
        let c = s.get_char(i);
        let d: u128 = if c == '0' {
            0
        } else if c == '1' {
            1
        } else if c == '2' {
            2
        } else if c == '3' {
            3
        } else if c == '4' {
            4
        } else if c == '5' {
            5
        } else if c == '6' {
            6
        } else if c == '7' {
            7
        } else if c == '8' {
            8
        } else if c == '9' {
            9
        } else {
            return None;
        };
        proof {
            assert(is_digit_char(s@[i as int]));
            assert(d as nat == digit_val(s@[i as int]));
            let p = s@.subrange(0, i + 1);
            assert(p.drop_last() =~= s@.subrange(0, i as int));
            assert(dec_value(p) == dec_value(s@.subrange(0, i as int)) * 10 + digit_val(p.last()));
        }
        v = v * 10 + d;
        i = i + 1;
        if v > usize::MAX as u128 {
            proof {
                lemma_dec_value_prefix_mono(s@, i as int);
            }
            return None;
        }
    }
    proof {
        assert(s@.subrange(0, n as int) =~= s@);
    }
    Some(v as usize)
}

/// The string of one digit character.
fn digit_str(d: u64) -> (r: &'static str)
    requires
        d < 10,
    ensures
        r@ =~= seq![digit_char(d as nat)],
{
    if d == 0 {
        proof {
            reveal_strlit("0");
        }
        "0"
    } else if d == 1 {
        proof {
            reveal_strlit("1");
        }
        "1"
    } else if d == 2 {
        proof {
            reveal_strlit("2");
        }
        "2"
    } else if d == 3 {
        proof {
            reveal_strlit("3");
        }
        "3"
    } else if d == 4 {
        proof {
            reveal_strlit("4");
        }
        "4"
    } else if d == 5 {
        proof {
            reveal_strlit("5");
        }
        "5"
    } else if d == 6 {
        proof {
            reveal_strlit("6");
        }
        "6"
    } else if d == 7 {
        proof {
            reveal_strlit("7");
        }
        "7"
    } else if d == 8 {
        proof {
            reveal_strlit("8");
        }
        "8"
    } else {
        proof {
            reveal_strlit("9");
        }
        "9"
    }
}

/// The decimal numeral of `n` as a string.
pub fn u64_to_dec(n: u64) -> (r: String)
    ensures
        r@ =~= dec_digits(n as nat),
{
    let mut rev: Vec<u64> = Vec::new();
    let mut m: u64 = n;
    loop
        invariant
            m <= n,
            forall|k: int| 0 <= k < rev@.len() ==> #[trigger] rev@[k] < 10,
            dec_digits(n as nat) =~= if rev@.len() == 0 {
                dec_digits(m as nat)
            } else {
                dec_digits(m as nat) + Seq::new(
                    rev@.len(),
                    |k: int| digit_char(rev@[rev@.len() - 1 - k] as nat),
                )
            },
        ensures
            m < 10,
            dec_digits(n as nat) =~= seq![digit_char(m as nat)] + Seq::new(
                rev@.len(),
                |k: int| digit_char(rev@[rev@.len() - 1 - k] as nat),
            ),
        decreases m,
    {
        if m < 10 {
            proof {
                if rev@.len() == 0 {
                    assert(dec_digits(n as nat) =~= seq![digit_char(m as nat)] + Seq::new(
                        0,
                        |k: int| digit_char(rev@[rev@.len() - 1 - k] as nat),
                    ));
                }
            }
            break;
        }
        let d: u64 = m % 10;
        let ghost old_rev = rev@;
        rev.push(d);
        proof {
            assert(dec_digits(m as nat) == dec_digits((m / 10) as nat) + seq![
                digit_char((m % 10) as nat),
            ]);
            assert(Seq::new(rev@.len(), |k: int| digit_char(rev@[rev@.len() - 1 - k] as nat))
                =~= seq![digit_char(d as nat)] + Seq::new(
                old_rev.len(),
                |k: int| digit_char(old_rev[old_rev.len() - 1 - k] as nat),
            ));
        }
        m = m / 10;
    }
    let mut out = String::new();
    out.append(digit_str(m));
    let mut j: usize = rev.len();
    proof {
        assert(out@ =~= dec_digits(n as nat).subrange(0, 1));
    }
    while j > 0
        invariant
            0 <= j <= rev@.len(),
            forall|k: int| 0 <= k < rev@.len() ==> #[trigger] rev@[k] < 10,
            dec_digits(n as nat).len() == 1 + rev@.len(),
            out@ =~= dec_digits(n as nat).subrange(0, 1 + rev@.len() - j),
            dec_digits(n as nat) =~= seq![dec_digits(n as nat)[0]] + Seq::new(
                rev@.len(),
                |k: int| digit_char(rev@[rev@.len() - 1 - k] as nat),
            ),
        decreases j,
    {
        j = j - 1;
        let d = rev[j];
        out.append(digit_str(d));
        proof {
            let full = dec_digits(n as nat);
            let pos = rev@.len() - j;
            assert(full[pos as int] == digit_char(rev@[j as int] as nat));
            assert(out@ =~= full.subrange(0, 1 + rev@.len() - j));
        }
    }
    proof {
        assert(dec_digits(n as nat).subrange(0, (1 + rev@.len()) as int) =~= dec_digits(n as nat));
    }
    out
}


/// `s` with leading blanks removed.
pub fn trim_start_str<'a>(s: &'a str) -> (r: &'a str)
    ensures
        r@ == trim_start_spec(s@),
{
    let n: usize = s.unicode_len();
    let mut a: usize = 0;
    while a < n && is_space(s.get_char(a))
        invariant
            0 <= a <= n,
            n == s@.len(),
            forall|k: int| 0 <= k < a ==> is_space_char(#[trigger] s@[k]),
        decreases n - a,
    {
        a = a + 1;
    }
    proof {
        lemma_trim_start_at(s@, a as int);
    }
    s.substring_char(a, n)
}

/// Trimming the start leaves a suffix of the original sequence.
pub proof fn lemma_trim_start_is_suffix(s: Seq<char>)
    ensures
        trim_start_spec(s).len() <= s.len(),
        trim_start_spec(s) =~= s.subrange(
            s.len() - trim_start_spec(s).len(),
            s.len() as int,
        ),
    decreases s.len(),
{
    if s.len() > 0 && is_space_char(s[0]) {
        let t = s.drop_first();
        lemma_trim_start_is_suffix(t);
        let r = trim_start_spec(s);
        assert(r == trim_start_spec(t));
        assert(t.subrange(t.len() - r.len(), t.len() as int) =~= s.subrange(
            s.len() - r.len(),
            s.len() as int,
        ));
    } else {
        assert(s.subrange(0, s.len() as int) =~= s);
    }
}

/// `find_char` yields -1 or a first occurrence within bounds.
pub proof fn lemma_find_char_props(s: Seq<char>, c: char)
    ensures
        find_char(s, c) >= -1,
        find_char(s, c) >= 0 ==> find_char(s, c) < s.len() && s[find_char(s, c)] == c,
        find_char(s, c) >= 0 ==> forall|k: int| 0 <= k < find_char(s, c) ==> s[k] != c,
        find_char(s, c) == -1 ==> forall|k: int| 0 <= k < s.len() ==> s[k] != c,
    decreases s.len(),
{
    if s.len() == 0 {
    } else if s[0] == c {
    } else {
        let t = s.drop_first();
        lemma_find_char_props(t, c);
        if find_char(t, c) >= 0 {
            assert forall|k: int| 0 <= k < find_char(s, c) implies s[k] != c by {
                if k >= 1 {
                    assert(t[k - 1] != c);
                }
            }
        } else {
            assert forall|k: int| 0 <= k < s.len() implies s[k] != c by {
                if k >= 1 {
                    assert(t[k - 1] != c);
                }
            }
        }
    }
}

/// Splitting a join of separator-free segments restores the segments.
pub proof fn lemma_split_join_id(ls: Seq<Seq<char>>, sep: char)
    requires
        ls.len() >= 1,
        forall|i: int, k: int|
            0 <= i < ls.len() && 0 <= k < ls[i].len() ==> #[trigger] ls[i][k] != sep,
    ensures
        split_on(join_with(ls, sep), sep) =~~= ls,
    decreases ls.len(),
{
    if ls.len() == 1 {
        assert(forall|k: int| 0 <= k < ls[0].len() ==> ls[0][k] != sep);
        lemma_split_on_no_sep(ls[0], sep);
    } else {
        let rest = ls.drop_first();
        assert(forall|i: int, k: int|
            0 <= i < rest.len() && 0 <= k < rest[i].len() ==> #[trigger] rest[i][k] != sep);
        lemma_split_join_id(rest, sep);
        let s = join_with(ls, sep);
        assert(s == ls[0] + seq![sep] + join_with(rest, sep));
        let j = ls[0].len() as int;
        assert(s[j] == sep);
        assert forall|k: int| 0 <= k < j implies s[k] != sep by {
            assert(s[k] == ls[0][k]);
        }
        lemma_split_on_head(s, sep, j);
        assert(s.subrange(0, j) =~= ls[0]);
        assert(s.subrange(j + 1, s.len() as int) =~= join_with(rest, sep));
        assert(split_on(s, sep) =~~= seq![ls[0]] + rest);
        assert(seq![ls[0]] + rest =~~= ls);
    }
}

/// Is `s` a plain decimal numeral whose value fits `u32`?
pub open spec fn is_u32_numeral(s: Seq<char>) -> bool {
    s.len() > 0 && all_digits(s) && dec_value(s) <= u32::MAX as nat
}

/// Parse `s` as a decimal `u32`; `None` unless `s` is a nonempty digit
/// string whose value fits.
pub fn parse_u32(s: &str) -> (r: Option<u32>)
    ensures
        match r {
            Some(v) => is_u32_numeral(s@) && v as nat == dec_value(s@),
            None => !is_u32_numeral(s@),
        },
{
    let n: usize = s.unicode_len();
    if n == 0 {
        return None;
    }
    let mut i: usize = 0;
    let mut v: u64 = 0;
    while i < n
        invariant
            0 <= i <= n,
            n == s@.len(),
            n >= 1,
            forall|k: int| 0 <= k < i ==> is_digit_char(#[trigger] s@[k]),
            v as nat == dec_value(s@.subrange(0, i as int)),
            v <= u32::MAX as u64,
        decreases n - i,
    {
        let c = s.get_char(i);
        let d: u64 = if c == '0' {
            0
        } else if c == '1' {
            1
        } else if c == '2' {
            2
        } else if c == '3' {
            3
        } else if c == '4' {
            4
        } else if c == '5' {
            5
        } else if c == '6' {
            6
        } else if c == '7' {
            7
        } else if c == '8' {
            8
        } else if c == '9' {
            9
        } else {
            return None;
        };
        proof {
            assert(is_digit_char(s@[i as int]));
            assert(d as nat == digit_val(s@[i as int]));
            let pfx = s@.subrange(0, i + 1);
            assert(pfx.drop_last() =~= s@.subrange(0, i as int));
            assert(dec_value(pfx) == dec_value(s@.subrange(0, i as int)) * 10 + digit_val(
                pfx.last(),
            ));
        }
        v = v * 10 + d;
        i = i + 1;
        if v > u32::MAX as u64 {
            proof {
                lemma_dec_value_prefix_mono(s@, i as int);
            }
            return None;
        }
    }
    proof {
        assert(s@.subrange(0, n as int) =~= s@);
    }
    Some(v as u32)
}

/// What Unicode lowercasing yields for a character sequence: a function of
/// the characters alone, named here so contracts can speak of it.
pub uninterp spec fn lower_of(s: Seq<char>) -> Seq<char>;

/// Relies on str::to_lowercase: returns the Unicode lowercase equivalent of
/// `s`, determined by the characters alone; an empty string stays empty.
#[verifier::external_body]
pub(crate) fn lowercase(s: &str) -> (r: String)
    ensures
        r@ == lower_of(s@),
        s@.len() == 0 ==> r@.len() == 0,
{
    s.to_lowercase()
}

/// Is `a` a contiguous span of `b`?
pub open spec fn span_of(a: Seq<char>, b: Seq<char>) -> bool {
    exists|x: int|
        0 <= x && x + a.len() <= b.len() && a == #[trigger] b.subrange(x, x + a.len() as int)
}

/// A subrange with valid bounds is a span of its base.
pub proof fn lemma_subrange_span(b: Seq<char>, x: int, y: int)
    requires
        0 <= x <= y <= b.len(),
    ensures
        span_of(b.subrange(x, y), b),
{
    assert(b.subrange(x, y) =~= b.subrange(x, x + b.subrange(x, y).len() as int));
}

/// Spans compose.
pub proof fn lemma_span_trans(a: Seq<char>, b: Seq<char>, c: Seq<char>)
    requires
        span_of(a, b),
        span_of(b, c),
    ensures
        span_of(a, c),
{
    let x = choose|x: int|
        0 <= x && x + a.len() <= b.len() && a == #[trigger] b.subrange(x, x + a.len() as int);
    let y = choose|y: int|
        0 <= y && y + b.len() <= c.len() && b == #[trigger] c.subrange(y, y + b.len() as int);
    assert(a =~= c.subrange(y + x, y + x + a.len() as int));
}

/// Trimming the start yields a span of the original.
pub proof fn lemma_trim_start_span(s: Seq<char>)
    ensures
        span_of(trim_start_spec(s), s),
{
    lemma_trim_start_is_suffix(s);
    let r = trim_start_spec(s);
    let x = s.len() - r.len();
    assert(r =~= s.subrange(x as int, x + r.len() as int));
}

/// A span of a sequence free of `c` is itself free of `c`.
pub proof fn lemma_span_excludes(a: Seq<char>, b: Seq<char>, c: char)
    requires
        span_of(a, b),
        forall|t: int| 0 <= t < b.len() ==> b[t] != c,
    ensures
        forall|k: int| 0 <= k < a.len() ==> a[k] != c,
{
    let x = choose|x: int|
        0 <= x && x + a.len() <= b.len() && a == #[trigger] b.subrange(x, x + a.len() as int);
    assert forall|k: int| 0 <= k < a.len() implies a[k] != c by {
        assert(a[k] == b[x + k]);
    }
}

} // verus!

