//! The raw status grammar and the file-state map it decodes to.
//!
//! A raw status is `segment ("|" segment)*`, each segment `count SP code`.
//! Decoding yields a map from code to count; encoding renders the map sorted
//! by code as `"<count> <code> "` entries joined by `"| "`.

use vstd::prelude::*;
use crate::text::{chars_of, string_of};

verus! {

/// Why a raw status string could not be decoded.
#[derive(Debug, Clone, Copy, PartialEq, Eq, Structural)]
pub enum ParseError {
    /// A non-empty segment holds no space between count and code.
    MissingSeparator,
    /// The count is not an unsigned decimal integer that fits in 64 bits.
    InvalidCount,
    /// The code is empty or holds a space.
    InvalidCode,
}

// ---------------------------------------------------------------------------
// Ordering of codes

/// Lexicographic order on codes, character by character (the same order as
/// byte-wise order on their UTF-8 encodings).
pub open spec fn code_lt(a: Seq<char>, b: Seq<char>) -> bool
    decreases a.len(),
{
    if a.len() == 0 {
        b.len() > 0
    } else if b.len() == 0 {
        false
    } else if a[0] != b[0] {
        a[0] < b[0]
    } else {
        code_lt(a.drop_first(), b.drop_first())
    }
}

pub proof fn lemma_code_lt_irreflexive(a: Seq<char>)
    ensures
        !code_lt(a, a),
    decreases a.len(),
{
    if a.len() > 0 {
        lemma_code_lt_irreflexive(a.drop_first());
    }
}

pub proof fn lemma_code_lt_total(a: Seq<char>, b: Seq<char>)
    ensures
        a == b || code_lt(a, b) || code_lt(b, a),
    decreases a.len(),
{
    if a.len() > 0 && b.len() > 0 && a[0] == b[0] {
        lemma_code_lt_total(a.drop_first(), b.drop_first());
        if a.drop_first() == b.drop_first() {
            assert(a =~= seq![a[0]] + a.drop_first());
            assert(b =~= seq![b[0]] + b.drop_first());
        }
    } else if a.len() == 0 && b.len() == 0 {
        assert(a =~= b);
    } else if a.len() > 0 && b.len() > 0 {
    }
}

pub proof fn lemma_code_lt_transitive(a: Seq<char>, b: Seq<char>, c: Seq<char>)
    requires
        code_lt(a, b),
        code_lt(b, c),
    ensures
        code_lt(a, c),
    decreases a.len(),
{
    if a.len() > 0 && b.len() > 0 && c.len() > 0 && a[0] == b[0] && b[0] == c[0] {
        lemma_code_lt_transitive(a.drop_first(), b.drop_first(), c.drop_first());
    }
}

proof fn lemma_code_lt_skip(a: Seq<char>, b: Seq<char>, i: int)
    requires
        0 <= i <= a.len(),
        i <= b.len(),
        a.take(i) == b.take(i),
    ensures
        code_lt(a, b) == code_lt(a.skip(i), b.skip(i)),
    decreases i,
{
    if i == 0 {
        assert(a.skip(0) =~= a);
        assert(b.skip(0) =~= b);
    } else {
        assert(a[0] == a.take(i)[0]);
        assert(b[0] == b.take(i)[0]);
        assert(a.drop_first().take(i - 1) =~= a.take(i).drop_first());
        assert(b.drop_first().take(i - 1) =~= b.take(i).drop_first());
        lemma_code_lt_skip(a.drop_first(), b.drop_first(), i - 1);
        assert(a.drop_first().skip(i - 1) =~= a.skip(i));
        assert(b.drop_first().skip(i - 1) =~= b.skip(i));
    }
}

/// Whether code `a` sorts before code `b`.
pub fn code_less(a: &Vec<char>, b: &Vec<char>) -> (r: bool)
    ensures
        r == code_lt(a@, b@),
{
    let mut i: usize = 0;
    while i < a.len() && i < b.len() && a[i] == b[i]
        invariant
            i <= a.len(),
            i <= b.len(),
            a@.take(i as int) == b@.take(i as int),
        decreases a.len() - i,
    {
        assert(a@.take(i + 1) =~= a@.take(i as int).push(a[i as int]));
        assert(b@.take(i + 1) =~= b@.take(i as int).push(b[i as int]));
        i = i + 1;
    }
    proof {
        lemma_code_lt_skip(a@, b@, i as int);
    }
    if i == a.len() {
        i < b.len()
    } else if i == b.len() {
        false
    } else {
        a[i] < b[i]
    }
}

// ---------------------------------------------------------------------------
// File-state maps

/// A code that can stand in a raw status: non-empty, without a space or `|`.
pub open spec fn valid_code(c: Seq<char>) -> bool {
    c.len() > 0 && forall|i: int| 0 <= i < c.len() ==> #[trigger] c[i] != ' ' && c[i] != '|'
}

/// Entries strictly ascending by code.
pub open spec fn sorted_entries(e: Seq<(Seq<char>, u64)>) -> bool {
    forall|i: int, j: int| 0 <= i < j < e.len() ==> code_lt(#[trigger] e[i].0, #[trigger] e[j].0)
}

/// The map that a sequence of entries describes; a later entry for a code
/// replaces an earlier one.
pub open spec fn map_of(e: Seq<(Seq<char>, u64)>) -> Map<Seq<char>, u64>
    decreases e.len(),
{
    if e.len() == 0 {
        Map::empty()
    } else {
        map_of(e.drop_last()).insert(e.last().0, e.last().1)
    }
}

/// Codes and counts seen through the codes' views.
pub open spec fn view_entries(v: Seq<(String, u64)>) -> Seq<(Seq<char>, u64)> {
    v.map_values(|x: (String, u64)| (x.0@, x.1))
}

/// The counts of files per status code, kept sorted by code.
#[derive(Debug)]
pub struct FileStates {
    entries: Vec<(String, u64)>,
}

impl View for FileStates {
    type V = Map<Seq<char>, u64>;

    open spec fn view(&self) -> Map<Seq<char>, u64> {
        map_of(self.entries_view())
    }
}

proof fn lemma_map_of_insert(e: Seq<(Seq<char>, u64)>, i: int, x: (Seq<char>, u64))
    requires
        0 <= i <= e.len(),
        sorted_entries(e.insert(i, x)),
    ensures
        map_of(e.insert(i, x)) == map_of(e).insert(x.0, x.1),
    decreases e.len(),
{
    let ex = e.insert(i, x);
    if i == e.len() {
        assert(ex.drop_last() =~= e);
    } else {
        let l = e.last();
        assert(ex.drop_last() =~= e.drop_last().insert(i, x));
        assert(ex.last() == l);
        assert(code_lt(ex[i].0, ex[ex.len() - 1].0));
        lemma_code_lt_irreflexive(x.0);
        assert forall|a: int, b: int| 0 <= a < b < ex.drop_last().len() implies code_lt(
            #[trigger] ex.drop_last()[a].0,
            #[trigger] ex.drop_last()[b].0,
        ) by {
            assert(code_lt(ex[a].0, ex[b].0));
        }
        lemma_map_of_insert(e.drop_last(), i, x);
        assert(map_of(ex) =~= map_of(e).insert(x.0, x.1));
    }
}

proof fn lemma_map_of_update(e: Seq<(Seq<char>, u64)>, i: int, x: (Seq<char>, u64))
    requires
        0 <= i < e.len(),
        e[i].0 == x.0,
        sorted_entries(e),
    ensures
        map_of(e.update(i, x)) == map_of(e).insert(x.0, x.1),
    decreases e.len(),
{
    let ex = e.update(i, x);
    if i == e.len() - 1 {
        assert(ex.drop_last() =~= e.drop_last());
        assert(map_of(ex) =~= map_of(e).insert(x.0, x.1));
    } else {
        assert(ex.drop_last() =~= e.drop_last().update(i, x));
        assert(code_lt(e[i].0, e[e.len() - 1].0));
        lemma_code_lt_irreflexive(x.0);
        assert forall|a: int, b: int| 0 <= a < b < e.drop_last().len() implies code_lt(
            #[trigger] e.drop_last()[a].0,
            #[trigger] e.drop_last()[b].0,
        ) by {
            assert(code_lt(e[a].0, e[b].0));
        }
        lemma_map_of_update(e.drop_last(), i, x);
        assert(map_of(ex) =~= map_of(e).insert(x.0, x.1));
    }
}

impl FileStates {
    /// The entries, as codes and counts.
    pub closed spec fn entries_view(&self) -> Seq<(Seq<char>, u64)> {
        view_entries(self.entries@)
    }

    /// The entries are strictly sorted by code and every code is valid.
    pub closed spec fn wf(&self) -> bool {
        &&& sorted_entries(self.entries_view())
        &&& forall|i: int| 0 <= i < self.entries@.len() ==> valid_code(#[trigger] self.entries@[i].0@)
    }

    /// A well-formed map's entries are strictly sorted by code, and every
    /// code is valid.
    pub proof fn lemma_wf_entries(&self)
        requires
            self.wf(),
        ensures
            sorted_entries(self.entries_view()),
            forall|i: int| 0 <= i < self.entries_view().len() ==> valid_code(#[trigger] self.entries_view()[i].0),
    {
        assert forall|i: int| 0 <= i < self.entries_view().len() implies valid_code(#[trigger] self.entries_view()[i].0) by {
            assert(valid_code(self.entries@[i].0@));
        }
    }

    /// The empty map.
    pub fn new() -> (r: FileStates)
        ensures
            r.wf(),
            r@ == Map::<Seq<char>, u64>::empty(),
            r.entries_view().len() == 0,
    {
        let r = FileStates { entries: Vec::new() };
        assert(r.entries_view() =~= Seq::<(Seq<char>, u64)>::empty());
        r
    }

    /// The number of codes.
    pub fn len(&self) -> (r: usize)
        requires
            self.wf(),
        ensures
            r == self.entries_view().len(),
    {
        self.entries.len()
    }

    /// Sets the count of `code`, replacing any earlier count.
    pub fn insert(&mut self, code: String, count: u64)
        requires
            old(self).wf(),
            valid_code(code@),
        ensures
            final(self).wf(),
            final(self)@ == old(self)@.insert(code@, count),
    {
        let c = chars_of(code.as_str());
        let ghost e = self.entries_view();
        let mut i: usize = 0;
        while i < self.entries.len()
            invariant
                i <= self.entries.len(),
                e == self.entries_view(),
                c@ == code@,
                forall|j: int| 0 <= j < i ==> code_lt(#[trigger] e[j].0, code@),
            ensures
                i <= self.entries.len(),
                e == self.entries_view(),
                c@ == code@,
                forall|j: int| 0 <= j < i ==> code_lt(#[trigger] e[j].0, code@),
                i < self.entries.len() ==> !code_lt(e[i as int].0, code@),
            decreases self.entries.len() - i,
        {
            let k = chars_of(self.entries[i].0.as_str());
            assert(k@ == e[i as int].0);
            if !code_less(&k, &c) {
                break;
            }
            i = i + 1;
        }
        let ghost x = (code@, count);
        let same = if i < self.entries.len() {
            let k = chars_of(self.entries[i].0.as_str());
            let l = code_less(&c, &k);
            proof {
                lemma_code_lt_total(k@, c@);
            }
            !l
        } else {
            false
        };
        if same {
            assert(e[i as int].0 == code@);
            self.entries.remove(i);
            self.entries.insert(i, (code, count));
            assert(self.entries_view() =~= e.update(i as int, x));
            proof {
                lemma_map_of_update(e, i as int, x);
            }
        } else {
            self.entries.insert(i, (code, count));
            assert(self.entries_view() =~= e.insert(i as int, x));
            assert forall|a: int, b: int|
                0 <= a < b < e.insert(i as int, x).len() implies code_lt(
                #[trigger] e.insert(i as int, x)[a].0,
                #[trigger] e.insert(i as int, x)[b].0,
            ) by {
                if b == i {
                } else if a == i {
                    lemma_code_lt_total(e[i as int].0, code@);
                    if b > i + 1 {
                        lemma_code_lt_transitive(code@, e[i as int].0, e[b - 1].0);
                    }
                }
            }
            proof {
                lemma_map_of_insert(e, i as int, x);
            }
        }
    }
}

// ---------------------------------------------------------------------------
// The grammar

/// The pieces of `s` between `|` characters, in order.
pub open spec fn split_bars(s: Seq<char>) -> Seq<Seq<char>>
    decreases s.len(),
{
    if s.len() == 0 {
        seq![Seq::empty()]
    } else {
        let prev = split_bars(s.drop_last());
        if s.last() == '|' {
            prev.push(Seq::empty())
        } else {
            prev.update(prev.len() - 1, prev.last().push(s.last()))
        }
    }
}

/// `s` without its leading spaces.
pub open spec fn strip_start(s: Seq<char>) -> Seq<char>
    decreases s.len(),
{
    if s.len() > 0 && s[0] == ' ' {
        strip_start(s.drop_first())
    } else {
        s
    }
}

/// `s` without its trailing spaces.
pub open spec fn strip_end(s: Seq<char>) -> Seq<char>
    decreases s.len(),
{
    if s.len() > 0 && s.last() == ' ' {
        strip_end(s.drop_last())
    } else {
        s
    }
}

/// `s` without leading and trailing spaces.
pub open spec fn strip_spaces(s: Seq<char>) -> Seq<char> {
    strip_end(strip_start(s))
}

/// The bounds of `v[start..end]` once leading and trailing spaces are removed.
fn space_bounds(v: &Vec<char>, start: usize, end: usize) -> (r: (usize, usize))
    requires
        start <= end <= v.len(),
    ensures
        start <= r.0 <= r.1 <= end,
        v@.subrange(r.0 as int, r.1 as int) == strip_spaces(v@.subrange(start as int, end as int)),
{
    let ghost seg = v@.subrange(start as int, end as int);
    let mut lo: usize = start;
    assert(v@.subrange(lo as int, end as int) =~= seg);
    while lo < end && v[lo] == ' '
        invariant
            start <= lo <= end <= v.len(),
            seg == v@.subrange(start as int, end as int),
            strip_start(v@.subrange(lo as int, end as int)) == strip_start(seg),
        decreases end - lo,
    {
        assert(v@.subrange(lo as int, end as int).drop_first() =~= v@.subrange(lo + 1, end as int));
        lo = lo + 1;
    }
    assert(strip_start(v@.subrange(lo as int, end as int)) == v@.subrange(lo as int, end as int));
    let mut hi: usize = end;
    while hi > lo && v[hi - 1] == ' '
        invariant
            start <= lo <= hi <= end <= v.len(),
            strip_end(v@.subrange(lo as int, hi as int)) == strip_spaces(seg),
        decreases hi,
    {
        assert(v@.subrange(lo as int, hi as int).drop_last() =~= v@.subrange(lo as int, hi - 1));
        hi = hi - 1;
    }
    (lo, hi)
}

/// The index of the first space in `t`, or -1 if it holds none.
pub open spec fn first_space(t: Seq<char>) -> int
    decreases t.len(),
{
    if t.len() == 0 {
        -1
    } else if t[0] == ' ' {
        0
    } else {
        let r = first_space(t.drop_first());
        if r < 0 {
            -1
        } else {
            r + 1
        }
    }
}

pub open spec fn is_digit(c: char) -> bool {
    '0' <= c && c <= '9'
}

pub open spec fn digit_value(c: char) -> nat {
    (c as nat - '0' as nat) as nat
}

/// A non-empty run of decimal digits.
pub open spec fn all_digits(s: Seq<char>) -> bool {
    s.len() > 0 && forall|i: int| 0 <= i < s.len() ==> is_digit(#[trigger] s[i])
}

/// The value of a run of decimal digits.
pub open spec fn digits_value(s: Seq<char>) -> nat
    decreases s.len(),
{
    if s.len() == 0 {
        0
    } else {
        digits_value(s.drop_last()) * 10 + digit_value(s.last())
    }
}

/// A non-empty segment, without surrounding spaces, read as `count SP code`.
pub open spec fn parse_entry(t: Seq<char>) -> Result<(Seq<char>, u64), ParseError> {
    let i = first_space(t);
    if i < 0 {
        Err(ParseError::MissingSeparator)
    } else if !all_digits(t.take(i)) || digits_value(t.take(i)) > u64::MAX {
        Err(ParseError::InvalidCount)
    } else if !valid_code(t.skip(i + 1)) {
        Err(ParseError::InvalidCode)
    } else {
        Ok((t.skip(i + 1), digits_value(t.take(i)) as u64))
    }
}

/// What one segment contributes: nothing when it is blank, else an entry.
pub open spec fn segment_entry(seg: Seq<char>) -> Result<Option<(Seq<char>, u64)>, ParseError> {
    let t = strip_spaces(seg);
    if t.len() == 0 {
        Ok(None)
    } else {
        match parse_entry(t) {
            Ok(x) => Ok(Some(x)),
            Err(e) => Err(e),
        }
    }
}

/// The map `m` once segment `seg` is read into it.
pub open spec fn apply_segment(m: Map<Seq<char>, u64>, seg: Seq<char>) -> Result<Map<Seq<char>, u64>, ParseError> {
    match segment_entry(seg) {
        Err(e) => Err(e),
        Ok(None) => Ok(m),
        Ok(Some(x)) => Ok(m.insert(x.0, x.1)),
    }
}

/// The segments read in order into an empty map; the first bad segment fails.
pub open spec fn decode_segments(segs: Seq<Seq<char>>) -> Result<Map<Seq<char>, u64>, ParseError>
    decreases segs.len(),
{
    if segs.len() == 0 {
        Ok(Map::empty())
    } else {
        match decode_segments(segs.drop_last()) {
            Err(e) => Err(e),
            Ok(m) => apply_segment(m, segs.last()),
        }
    }
}

/// The map that a raw status string denotes, or why it has none.
pub open spec fn decoded(raw: Seq<char>) -> Result<Map<Seq<char>, u64>, ParseError> {
    decode_segments(split_bars(raw))
}

proof fn lemma_first_space(t: Seq<char>, k: int)
    requires
        0 <= k <= t.len(),
        forall|j: int| 0 <= j < k ==> t[j] != ' ',
        k < t.len() ==> t[k] == ' ',
    ensures
        first_space(t) == if k < t.len() { k } else { -1 },
    decreases k,
{
    if k > 0 {
        lemma_first_space(t.drop_first(), k - 1);
    } else if t.len() == 0 {
    }
}

proof fn lemma_digits_value_prefix(s: Seq<char>, k: int)
    requires
        0 <= k <= s.len(),
    ensures
        digits_value(s.take(k)) <= digits_value(s),
    decreases s.len(),
{
    if k < s.len() {
        assert(s.drop_last().take(k) =~= s.take(k));
        lemma_digits_value_prefix(s.drop_last(), k);
    } else {
        assert(s.take(k) =~= s);
    }
}

/// The count written in `v[start..end]`.
fn parse_count(v: &Vec<char>, start: usize, end: usize) -> (r: Result<u64, ParseError>)
    requires
        start <= end <= v.len(),
    ensures
        ({
            let s = v@.subrange(start as int, end as int);
            match r {
                Ok(n) => all_digits(s) && digits_value(s) <= u64::MAX && n == digits_value(s),
                Err(e) => e == ParseError::InvalidCount && !(all_digits(s) && digits_value(s) <= u64::MAX),
            }
        }),
{
    let ghost s = v@.subrange(start as int, end as int);
    if start == end {
        return Err(ParseError::InvalidCount);
    }
    let mut n: u64 = 0;
    let mut i: usize = start;
    assert(v@.subrange(start as int, start as int) =~= Seq::<char>::empty());
    while i < end
        invariant
            start <= i <= end <= v.len(),
            s == v@.subrange(start as int, end as int),
            forall|j: int| start <= j < i ==> is_digit(#[trigger] v@[j]),
            n == digits_value(v@.subrange(start as int, i as int)),
        decreases end - i,
    {
        let c = v[i];
        if !('0' <= c && c <= '9') {
            assert(!is_digit(s[i - start]));
            return Err(ParseError::InvalidCount);
        }
        let d: u64 = (c as u32 - '0' as u32) as u64;
        let ghost p = v@.subrange(start as int, i + 1);
        assert(p.drop_last() =~= v@.subrange(start as int, i as int));
        if n > (u64::MAX - d) / 10 {
            assert(n * 10 + d > u64::MAX) by (nonlinear_arith)
                requires
                    n > (u64::MAX - d) / 10,
                    d <= 9,
            ;
            proof {
                assert(s.take(i + 1 - start) =~= p);
                lemma_digits_value_prefix(s, i + 1 - start);
            }
            return Err(ParseError::InvalidCount);
        }
        assert(n * 10 + d <= u64::MAX) by (nonlinear_arith)
            requires
                n <= (u64::MAX - d) / 10,
                d <= 9,
        ;
        n = n * 10 + d;
        i = i + 1;
    }
    assert(v@.subrange(start as int, end as int) =~= s);
    Ok(n)
}

/// Reads the segment `v[start..end]` into `states`.
#[verifier::loop_isolation(false)]
fn add_segment(states: &mut FileStates, v: &Vec<char>, start: usize, end: usize) -> (r: Result<(), ParseError>)
    requires
        old(states).wf(),
        start <= end <= v.len(),
    ensures
        final(states).wf(),
        match r {
            Ok(()) => apply_segment(old(states)@, v@.subrange(start as int, end as int)) == Ok::<Map<Seq<char>, u64>, ParseError>(final(states)@),
            Err(e) => apply_segment(old(states)@, v@.subrange(start as int, end as int)) == Err::<Map<Seq<char>, u64>, ParseError>(e),
        },
{
    let (lo, hi) = space_bounds(v, start, end);
    let ghost t = v@.subrange(lo as int, hi as int);
    if lo == hi {
        assert(t.len() == 0);
        return Ok(());
    }
    let mut i: usize = lo;
    while i < hi && v[i] != ' '
        invariant
            lo <= i <= hi <= v.len(),
            forall|j: int| lo <= j < i ==> v@[j] != ' ',
        decreases hi - i,
    {
        i = i + 1;
    }
    proof {
        lemma_first_space(t, i - lo);
    }
    if i == hi {
        return Err(ParseError::MissingSeparator);
    }
    assert(t.take(i - lo) =~= v@.subrange(lo as int, i as int));
    assert(t.skip(i - lo + 1) =~= v@.subrange(i + 1, hi as int));
    let count = match parse_count(v, lo, i) {
        Ok(n) => n,
        Err(e) => {
            return Err(e);
        },
    };
    if i + 1 == hi {
        return Err(ParseError::InvalidCode);
    }
    let mut j: usize = i + 1;
    while j < hi
        invariant
            i + 1 <= j <= hi <= v.len(),
            forall|k: int| i + 1 <= k < j ==> #[trigger] v@[k] != ' ' && v@[k] != '|',
        decreases hi - j,
    {
        let c = v[j];
        if c == '|' || c == ' ' {
            assert(!valid_code(t.skip(i - lo + 1)) ) by {
                assert(t.skip(i - lo + 1)[j - i - 1] == c);
            }
            return Err(ParseError::InvalidCode);
        }
        j = j + 1;
    }
    let code = string_of(v, i + 1, hi);
    states.insert(code, count);
    Ok(())
}

/// Decodes a raw status string into a map from status code to count.
///
/// The string is split on `|`; blank segments are skipped; each other segment,
/// without its surrounding spaces, is a count, one space and a code. A later segment for a code
/// replaces an earlier one.
pub fn decode(raw: &str) -> (r: Result<FileStates, ParseError>)
    ensures
        match r {
            Ok(f) => f.wf() && decoded(raw@) == Ok::<Map<Seq<char>, u64>, ParseError>(f@),
            Err(e) => decoded(raw@) == Err::<Map<Seq<char>, u64>, ParseError>(e),
        },
{
    let v = chars_of(raw);
    let mut states = FileStates::new();
    let mut failure: Option<ParseError> = None;
    let mut start: usize = 0;
    let mut i: usize = 0;
    let ghost mut done: Seq<Seq<char>> = Seq::empty();
    assert(v@.take(0) =~= Seq::<char>::empty());
    assert(v@.subrange(0, 0) =~= Seq::<char>::empty());
    assert(split_bars(Seq::<char>::empty()) =~= done.push(Seq::<char>::empty()));
    while i < v.len()
        invariant
            start <= i <= v.len(),
            v@ == raw@,
            states.wf(),
            split_bars(v@.take(i as int)) == done.push(v@.subrange(start as int, i as int)),
            decode_segments(done) == match failure {
                None => Ok::<Map<Seq<char>, u64>, ParseError>(states@),
                Some(e) => Err(e),
            },
        decreases v.len() - i,
    {
        let ghost prev = split_bars(v@.take(i as int));
        assert(v@.take(i + 1).drop_last() =~= v@.take(i as int));
        assert(v@.take(i + 1).last() == v[i as int]);
        if v[i] == '|' {
            let ghost seg = v@.subrange(start as int, i as int);
            if failure.is_none() {
                match add_segment(&mut states, &v, start, i) {
                    Ok(()) => {},
                    Err(e) => {
                        failure = Some(e);
                    },
                }
            }
            proof {
                assert(done.push(seg).drop_last() =~= done);
                done = done.push(seg);
            }
            start = i + 1;
            assert(v@.subrange(start as int, i + 1) =~= Seq::<char>::empty());
        } else {
            assert(v@.subrange(start as int, i as int).push(v[i as int]) =~= v@.subrange(start as int, i + 1));
            assert(prev.update(prev.len() - 1, prev.last().push(v[i as int])) =~= done.push(
                v@.subrange(start as int, i + 1),
            ));
        }
        i = i + 1;
    }
    assert(v@.take(v.len() as int) =~= v@);
    let ghost seg = v@.subrange(start as int, v.len() as int);
    assert(done.push(seg).drop_last() =~= done);
    match failure {
        Some(e) => Err(e),
        None => match add_segment(&mut states, &v, start, v.len()) {
            Ok(()) => Ok(states),
            Err(e) => Err(e),
        },
    }
}

// ---------------------------------------------------------------------------
// Rendering

/// The decimal digit character for `d < 10`.
pub open spec fn digit_char(d: nat) -> char {
    if d == 0 { '0' } else if d == 1 { '1' } else if d == 2 { '2' } else if d == 3 { '3' }
    else if d == 4 { '4' } else if d == 5 { '5' } else if d == 6 { '6' } else if d == 7 { '7' }
    else if d == 8 { '8' } else { '9' }
}

/// The decimal rendering of `n`, without leading zeros.
pub open spec fn decimal(n: nat) -> Seq<char>
    decreases n,
{
    if n < 10 {
        seq![digit_char(n)]
    } else {
        decimal(n / 10).push(digit_char(n % 10))
    }
}

/// One entry as `"<count> <code> "`.
pub open spec fn render_entry(x: (Seq<char>, u64)) -> Seq<char> {
    decimal(x.1 as nat) + seq![' '] + x.0 + seq![' ']
}

/// Entries rendered in order and joined by `"| "`.
pub open spec fn render(e: Seq<(Seq<char>, u64)>) -> Seq<char>
    decreases e.len(),
{
    if e.len() == 0 {
        Seq::empty()
    } else if e.len() == 1 {
        render_entry(e[0])
    } else {
        render(e.drop_last()) + seq!['|', ' '] + render_entry(e.last())
    }
}

fn digit_char_of(d: u64) -> (r: char)
    requires
        d < 10,
    ensures
        r == digit_char(d as nat),
{
    if d == 0 { '0' } else if d == 1 { '1' } else if d == 2 { '2' } else if d == 3 { '3' }
    else if d == 4 { '4' } else if d == 5 { '5' } else if d == 6 { '6' } else if d == 7 { '7' }
    else if d == 8 { '8' } else { '9' }
}

/// The decimal digits of `n`.
pub fn decimal_chars(n: u64) -> (r: Vec<char>)
    ensures
        r@ == decimal(n as nat),
{
    let mut v: Vec<char> = Vec::new();
    let mut q: u64 = n;
    assert(decimal(n as nat) =~= decimal(q as nat) + v@);
    while q >= 10
        invariant
            decimal(n as nat) == decimal(q as nat) + v@,
        decreases q,
    {
        let ghost old_v = v@;
        v.insert(0, digit_char_of(q % 10));
        assert(decimal(q as nat) == decimal((q / 10) as nat).push(digit_char((q % 10) as nat)));
        assert(decimal(q as nat) + old_v =~= decimal((q / 10) as nat) + v@);
        q = q / 10;
    }
    let ghost old_v = v@;
    v.insert(0, digit_char_of(q));
    assert(decimal(q as nat) + old_v =~= v@);
    v
}

fn push_all(out: &mut Vec<char>, s: Vec<char>)
    ensures
        final(out)@ == old(out)@ + s@,
{
    let mut s = s;
    out.append(&mut s);
}

impl FileStates {
    /// Renders the map sorted by code: `"<count> <code> "` per entry, joined
    /// by `"| "`; the empty map renders as the empty string.
    pub fn encode(&self) -> (r: String)
        requires
            self.wf(),
        ensures
            r@ == render(self.entries_view()),
            sorted_entries(self.entries_view()),
            map_of(self.entries_view()) == self@,
    {
        let ghost e = self.entries_view();
        let mut out: Vec<char> = Vec::new();
        let mut i: usize = 0;
        assert(e.take(0) =~= Seq::<(Seq<char>, u64)>::empty());
        while i < self.entries.len()
            invariant
                i <= self.entries.len(),
                e == self.entries_view(),
                out@ == render(e.take(i as int)),
            decreases self.entries.len() - i,
        {
            assert(e.take(i + 1).drop_last() =~= e.take(i as int));
            let ghost before = out@;
            if i > 0 {
                out.push('|');
                out.push(' ');
            }
            push_all(&mut out, decimal_chars(self.entries[i].1));
            out.push(' ');
            push_all(&mut out, chars_of(self.entries[i].0.as_str()));
            out.push(' ');
            assert(e[i as int] == (self.entries@[i as int].0@, self.entries@[i as int].1));
            if i > 0 {
                assert(out@ =~= before + seq!['|', ' '] + render_entry(e[i as int]));
            } else {
                assert(out@ =~= render_entry(e[i as int]));
            }
            i = i + 1;
        }
        assert(e.take(i as int) =~= e);
        string_of(&out, 0, out.len())
    }

    /// The count recorded for `code`, if any.
    pub fn get(&self, code: &str) -> (r: Option<u64>)
        requires
            self.wf(),
        ensures
            r == (if self@.contains_key(code@) { Some(self@[code@]) } else { None::<u64> }),
    {
        let c = chars_of(code);
        let ghost e = self.entries_view();
        let mut i: usize = 0;
        while i < self.entries.len()
            invariant
                i <= self.entries.len(),
                e == self.entries_view(),
                c@ == code@,
                self.wf(),
                forall|j: int| 0 <= j < i ==> (#[trigger] e[j]).0 != code@,
            decreases self.entries.len() - i,
        {
            let k = chars_of(self.entries[i].0.as_str());
            if vec_chars_eq(&k, &c) {
                proof {
                    lemma_map_of_index(e, i as int);
                }
                return Some(self.entries[i].1);
            }
            i = i + 1;
        }
        proof {
            lemma_map_of_absent(e, code@);
        }
        None
    }

    /// The entries, sorted by code.
    pub fn entries(&self) -> (r: Vec<(String, u64)>)
        ensures
            view_entries(r@) == self.entries_view(),
    {
        let mut r: Vec<(String, u64)> = Vec::new();
        let mut i: usize = 0;
        while i < self.entries.len()
            invariant
                i <= self.entries.len(),
                r.len() == i,
                forall|j: int| 0 <= j < i ==> (#[trigger] r@[j]).0@ == self.entries@[j].0@ && r@[j].1 == self.entries@[j].1,
            decreases self.entries.len() - i,
        {
            let code = self.entries[i].0.clone();
            r.push((code, self.entries[i].1));
            i = i + 1;
        }
        assert(view_entries(r@) =~= self.entries_view());
        r
    }

    /// The map held by `entries`, when they are strictly sorted by code and
    /// every code is valid; `None` otherwise.
    pub fn from_entries(entries: Vec<(String, u64)>) -> (r: Option<FileStates>)
        ensures
            ({
                let e = view_entries(entries@);
                let ok = sorted_entries(e) && forall|i: int| 0 <= i < e.len() ==> valid_code(#[trigger] e[i].0);
                match r {
                    Some(f) => ok && f.wf() && f.entries_view() == e,
                    None => !ok,
                }
            }),
    {
        let ghost e = view_entries(entries@);
        let mut i: usize = 0;
        while i < entries.len()
            invariant
                i <= entries.len(),
                e == view_entries(entries@),
                forall|a: int, b: int| 0 <= a < b < i ==> code_lt(#[trigger] e[a].0, #[trigger] e[b].0),
                forall|a: int| 0 <= a < i ==> valid_code(#[trigger] e[a].0),
            decreases entries.len() - i,
        {
            let k = chars_of(entries[i].0.as_str());
            assert(k@ == e[i as int].0);
            if !valid_code_chars(&k) {
                return None;
            }
            if i > 0 {
                let p = chars_of(entries[i - 1].0.as_str());
                assert(p@ == e[i - 1].0);
                if !code_less(&p, &k) {
                    assert(!code_lt(e[i - 1].0, e[i as int].0));
                    return None;
                }
                assert forall|a: int, b: int| 0 <= a < b < i + 1 implies code_lt(
                    #[trigger] e[a].0,
                    #[trigger] e[b].0,
                ) by {
                    if b == i && a < i - 1 {
                        lemma_code_lt_transitive(e[a].0, e[i - 1].0, e[b].0);
                    }
                }
            }
            i = i + 1;
        }
        let f = FileStates { entries };
        assert(f.entries_view() == e);
        assert forall|j: int| 0 <= j < f.entries@.len() implies valid_code(#[trigger] f.entries@[j].0@) by {
            assert(valid_code(e[j].0));
        }
        Some(f)
    }
}

/// Whether `k` is a valid code.
fn valid_code_chars(k: &Vec<char>) -> (r: bool)
    ensures
        r == valid_code(k@),
{
    if k.len() == 0 {
        return false;
    }
    let mut j: usize = 0;
    while j < k.len()
        invariant
            j <= k.len(),
            forall|i: int| 0 <= i < j ==> #[trigger] k@[i] != ' ' && k@[i] != '|',
        decreases k.len() - j,
    {
        if k[j] == '|' || k[j] == ' ' {
            return false;
        }
        j = j + 1;
    }
    true
}

fn vec_chars_eq(a: &Vec<char>, b: &Vec<char>) -> (r: bool)
    ensures
        r == (a@ == b@),
{
    if a.len() != b.len() {
        return false;
    }
    let mut i: usize = 0;
    while i < a.len()
        invariant
            i <= a.len() == b.len(),
            forall|j: int| 0 <= j < i ==> a@[j] == b@[j],
        decreases a.len() - i,
    {
        if a[i] != b[i] {
            return false;
        }
        i = i + 1;
    }
    assert(a@ =~= b@);
    true
}

proof fn lemma_map_of_index(e: Seq<(Seq<char>, u64)>, i: int)
    requires
        0 <= i < e.len(),
        sorted_entries(e),
    ensures
        map_of(e).contains_key(e[i].0),
        map_of(e)[e[i].0] == e[i].1,
    decreases e.len(),
{
    if i < e.len() - 1 {
        assert(code_lt(e[i].0, e[e.len() - 1].0));
        lemma_code_lt_irreflexive(e[i].0);
        assert forall|a: int, b: int| 0 <= a < b < e.drop_last().len() implies code_lt(
            #[trigger] e.drop_last()[a].0,
            #[trigger] e.drop_last()[b].0,
        ) by {
            assert(code_lt(e[a].0, e[b].0));
        }
        lemma_map_of_index(e.drop_last(), i);
    }
}

proof fn lemma_map_of_absent(e: Seq<(Seq<char>, u64)>, k: Seq<char>)
    requires
        forall|j: int| 0 <= j < e.len() ==> (#[trigger] e[j]).0 != k,
    ensures
        !map_of(e).contains_key(k),
    decreases e.len(),
{
    if e.len() > 0 {
        assert forall|j: int| 0 <= j < e.drop_last().len() implies (#[trigger] e.drop_last()[j]).0 != k by {
            assert(e[j].0 != k);
        }
        lemma_map_of_absent(e.drop_last(), k);
    }
}

// ---------------------------------------------------------------------------
// Round trip

proof fn lemma_digit_char(d: nat)
    requires
        d < 10,
    ensures
        is_digit(digit_char(d)),
        digit_value(digit_char(d)) == d,
{
    assert('0' as nat == 48 && '1' as nat == 49 && '2' as nat == 50 && '3' as nat == 51 && '4' as nat == 52);
    assert('5' as nat == 53 && '6' as nat == 54 && '7' as nat == 55 && '8' as nat == 56 && '9' as nat == 57);
}

proof fn lemma_decimal(n: nat)
    ensures
        all_digits(decimal(n)),
        digits_value(decimal(n)) == n,
    decreases n,
{
    lemma_digit_char((n % 10) as nat);
    if n < 10 {
        assert(decimal(n).drop_last() =~= Seq::<char>::empty());
        assert(digits_value(Seq::<char>::empty()) == 0);
        assert(decimal(n).last() == digit_char(n));
        assert(digits_value(decimal(n)) == digits_value(decimal(n).drop_last()) * 10 + digit_value(decimal(n).last()));
    } else {
        lemma_decimal(n / 10);
        let d = decimal(n / 10);
        assert((n / 10) * 10 + n % 10 == n) by (nonlinear_arith);
        assert(decimal(n).last() == digit_char(n % 10));
        assert(decimal(n).drop_last() =~= d);
        assert(digits_value(decimal(n)) == digits_value(d) * 10 + digit_value(digit_char(n % 10)));
        assert forall|i: int| 0 <= i < decimal(n).len() implies is_digit(#[trigger] decimal(n)[i]) by {
            if i < d.len() {
                assert(decimal(n)[i] == d[i]);
            }
        }
    }
}

proof fn lemma_no_bars_split(b: Seq<char>)
    requires
        forall|i: int| 0 <= i < b.len() ==> b[i] != '|',
    ensures
        split_bars(b) == seq![b],
    decreases b.len(),
{
    if b.len() > 0 {
        lemma_no_bars_split(b.drop_last());
        assert(b.drop_last().push(b.last()) =~= b);
        assert(b[b.len() - 1] != '|');
        assert(seq![b.drop_last()].update(0, b.drop_last().push(b.last())) =~= seq![b]);
    } else {
        assert(b =~= Seq::<char>::empty());
    }
}

proof fn lemma_split_after_bar(a: Seq<char>, b: Seq<char>)
    requires
        forall|i: int| 0 <= i < b.len() ==> b[i] != '|',
    ensures
        split_bars(a + seq!['|'] + b) == split_bars(a).push(b),
    decreases b.len(),
{
    let s = a + seq!['|'] + b;
    if b.len() == 0 {
        assert(s.drop_last() =~= a);
        assert(b =~= Seq::<char>::empty());
    } else {
        let b1 = b.drop_last();
        lemma_split_after_bar(a, b1);
        assert(s.drop_last() =~= a + seq!['|'] + b1);
        assert(b1.push(b.last()) =~= b);
        assert(b[b.len() - 1] != '|');
        assert(s.last() == b.last());
        assert(split_bars(a).push(b1).update(split_bars(a).len() as int, b1.push(b.last())) =~= split_bars(a).push(b));
    }
}

proof fn lemma_strip_around(pre: Seq<char>, core: Seq<char>, post: Seq<char>)
    requires
        core.len() > 0,
        core[0] != ' ',
        core.last() != ' ',
        forall|i: int| 0 <= i < pre.len() ==> pre[i] == ' ',
        forall|i: int| 0 <= i < post.len() ==> post[i] == ' ',
    ensures
        strip_spaces(pre + core + post) == core,
    decreases pre.len() + post.len(),
{
    if pre.len() > 0 {
        let s = pre + core + post;
        assert(s.drop_first() =~= pre.drop_first() + core + post);
        lemma_strip_around(pre.drop_first(), core, post);
    } else if post.len() > 0 {
        let s = pre + core + post;
        assert(s =~= core + post);
        assert(strip_start(s) == s);
        assert(s.drop_last() =~= core + post.drop_last());
        lemma_strip_around(pre, core, post.drop_last());
        assert(pre + core + post.drop_last() =~= core + post.drop_last());
        assert(strip_start(core + post.drop_last()) == core + post.drop_last());
    } else {
        let s = pre + core + post;
        assert(s =~= core);
    }
}

proof fn lemma_segment_entry(pre: Seq<char>, x: (Seq<char>, u64))
    requires
        valid_code(x.0),
        forall|i: int| 0 <= i < pre.len() ==> pre[i] == ' ',
    ensures
        segment_entry(pre + render_entry(x)) == Ok::<Option<(Seq<char>, u64)>, ParseError>(Some(x)),
{
    let d = decimal(x.1 as nat);
    lemma_decimal(x.1 as nat);
    let core = d + seq![' '] + x.0;
    assert(pre + render_entry(x) =~= pre + core + seq![' ']);
    assert(core[0] == d[0]);
    assert(core.last() == x.0.last());
    assert(x.0[x.0.len() - 1] == x.0.last());
    lemma_strip_around(pre, core, seq![' ']);
    lemma_first_space(core, d.len() as int);
    assert(core.take(d.len() as int) =~= d);
    assert(core.skip(d.len() as int + 1) =~= x.0);
}

/// Decoding the rendering of well-formed entries gives back their map.
proof fn lemma_decode_render(e: Seq<(Seq<char>, u64)>)
    requires
        forall|i: int| 0 <= i < e.len() ==> valid_code(#[trigger] e[i].0),
    ensures
        decoded(render(e)) == Ok::<Map<Seq<char>, u64>, ParseError>(map_of(e)),
    decreases e.len(),
{
    assert(decode_segments(Seq::<Seq<char>>::empty()) == Ok::<Map<Seq<char>, u64>, ParseError>(Map::empty()));
    assert(map_of(Seq::<(Seq<char>, u64)>::empty()) == Map::<Seq<char>, u64>::empty());
    if e.len() == 0 {
        lemma_no_bars_split(Seq::<char>::empty());
        assert(seq![Seq::<char>::empty()].drop_last() =~= Seq::<Seq<char>>::empty());
        assert(strip_spaces(Seq::<char>::empty()) =~= Seq::<char>::empty());
    } else {
        let x = e.last();
        assert(valid_code(e[e.len() - 1].0));
        let r = render_entry(x);
        lemma_decimal(x.1 as nat);
        assert forall|i: int| 0 <= i < r.len() implies r[i] != '|' by {
            let d = decimal(x.1 as nat);
            if i < d.len() {
                assert(r[i] == d[i]);
                assert(is_digit(d[i]));
            } else if d.len() < i < d.len() + 1 + x.0.len() {
                assert(r[i] == x.0[i - d.len() - 1]);
            }
        }
        if e.len() == 1 {
            lemma_no_bars_split(r);
            assert(seq![r].drop_last() =~= Seq::<Seq<char>>::empty());
            assert(Seq::<char>::empty() + r =~= r);
            lemma_segment_entry(Seq::<char>::empty(), x);
            assert(e.drop_last() =~= Seq::<(Seq<char>, u64)>::empty());
        } else {
            let e1 = e.drop_last();
            assert forall|i: int| 0 <= i < e1.len() implies valid_code(#[trigger] e1[i].0) by {
                assert(valid_code(e[i].0));
            }
            lemma_decode_render(e1);
            let b = seq![' '] + r;
            assert forall|i: int| 0 <= i < b.len() implies b[i] != '|' by {
                if i > 0 {
                    assert(b[i] == r[i - 1]);
                }
            }
            assert(render(e) =~= render(e1) + seq!['|'] + b);
            lemma_split_after_bar(render(e1), b);
            assert(split_bars(render(e1)).push(b).drop_last() =~= split_bars(render(e1)));
            lemma_segment_entry(seq![' '], x);
            assert(decode_segments(split_bars(render(e1)).push(b)) == apply_segment(map_of(e1), b));
        }
    }
}

/// Decoding what `encode` renders gives back the map that was encoded.
pub proof fn lemma_round_trip(f: FileStates)
    requires
        f.wf(),
    ensures
        decoded(render(f.entries_view())) == Ok::<Map<Seq<char>, u64>, ParseError>(f@),
{
    assert forall|i: int| 0 <= i < f.entries_view().len() implies valid_code(#[trigger] f.entries_view()[i].0) by {
        assert(valid_code(f.entries@[i].0@));
    }
    lemma_decode_render(f.entries_view());
}

} // verus!
