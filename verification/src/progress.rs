//! Progress-stream interpretation: the encoder reports machine-readable
//! lines on its standard output; exactly two shapes matter, the microsecond
//! counter `out_time_us=N` and the end marker `progress=end`. A counter line
//! becomes a percentage of the job's total duration, clamped to [0, 100] and
//! carried in thousandths of a percent (25.0% is 25000); the end marker
//! always yields 100%. Anything else, including a counter whose value does
//! not parse, yields nothing and is never a failure.

use vstd::prelude::*;
use vstd::string::StrSliceExecFns;

verus! {

/// Whitespace stripped around the counter value.
pub open spec fn is_space(c: char) -> bool {
    c == ' ' || c == '\t' || c == '\r' || c == '\n'
}

/// The value of a decimal digit character, -1 for any other character.
pub open spec fn digit_val(c: char) -> int {
    if c == '0' {
        0
    } else if c == '1' {
        1
    } else if c == '2' {
        2
    } else if c == '3' {
        3
    } else if c == '4' {
        4
    } else if c == '5' {
        5
    } else if c == '6' {
        6
    } else if c == '7' {
        7
    } else if c == '8' {
        8
    } else if c == '9' {
        9
    } else {
        -1
    }
}

/// Every character is a decimal digit.
pub open spec fn all_digits(s: Seq<char>) -> bool {
    forall|i: int| 0 <= i < s.len() ==> digit_val(#[trigger] s[i]) >= 0
}

/// The number the digit string denotes, most significant digit first.
pub open spec fn digits_val(s: Seq<char>) -> int
    decreases s.len(),
{
    if s.len() == 0 {
        0
    } else {
        digits_val(s.drop_last()) * 10 + digit_val(s.last())
    }
}

/// `s` with leading whitespace removed.
pub open spec fn trim_start_rec(s: Seq<char>) -> Seq<char>
    decreases s.len(),
{
    if s.len() > 0 && is_space(s[0]) {
        trim_start_rec(s.subrange(1, s.len() as int))
    } else {
        s
    }
}

/// `s` with trailing whitespace removed.
pub open spec fn trim_end_rec(s: Seq<char>) -> Seq<char>
    decreases s.len(),
{
    if s.len() > 0 && is_space(s.last()) {
        trim_end_rec(s.drop_last())
    } else {
        s
    }
}

/// `s` with surrounding whitespace removed.
pub open spec fn trimmed(s: Seq<char>) -> Seq<char> {
    trim_end_rec(trim_start_rec(s))
}

/// `us` microseconds of encoded output as a share of `total_ms` milliseconds,
/// in thousandths of a percent, clamped to [0, 100000]. A total of zero is
/// treated as already complete; a negative total clamps to zero.
pub open spec fn progress_mpct(us: int, total_ms: int) -> int {
    if total_ms > 0 {
        let raw = us * 100000 / (total_ms * 1000);
        if raw > 100000 {
            100000
        } else {
            raw
        }
    } else if total_ms == 0 {
        100000
    } else {
        0
    }
}

/// The notification (in thousandths of a percent) that one line of encoder
/// output yields, if any: the end marker always yields 100%, a counter line
/// whose trimmed value is a decimal number that fits 64 bits yields the
/// clamped percentage, and every other line yields nothing.
pub open spec fn progress_of_line(line: Seq<char>, total_ms: int) -> Option<int> {
    if line == "progress=end"@ {
        Some(100000)
    } else {
        let p = "out_time_us="@;
        if line.len() >= p.len() && line.subrange(0, p.len() as int) == p {
            let t = trimmed(line.subrange(p.len() as int, line.len() as int));
            if t.len() > 0 && all_digits(t) && digits_val(t) <= u64::MAX as int {
                Some(progress_mpct(digits_val(t), total_ms))
            } else {
                None
            }
        } else {
            None
        }
    }
}

proof fn lemma_trim_start_at(s: Seq<char>, lo: int)
    requires
        0 <= lo <= s.len(),
        forall|k: int| 0 <= k < lo ==> is_space(#[trigger] s[k]),
        lo < s.len() ==> !is_space(s[lo]),
    ensures
        trim_start_rec(s) == s.subrange(lo, s.len() as int),
    decreases s.len(),
{
    if lo == 0 {
        assert(s.subrange(0, s.len() as int) =~= s);
    } else {
        let s1 = s.subrange(1, s.len() as int);
        lemma_trim_start_at(s1, lo - 1);
        assert(s1.subrange(lo - 1, s1.len() as int) =~= s.subrange(lo, s.len() as int));
    }
}

proof fn lemma_trim_end_at(s: Seq<char>, hi: int)
    requires
        0 <= hi <= s.len(),
        forall|k: int| hi <= k < s.len() ==> is_space(#[trigger] s[k]),
        hi > 0 ==> !is_space(s[hi - 1]),
    ensures
        trim_end_rec(s) == s.subrange(0, hi),
    decreases s.len(),
{
    if hi == s.len() {
        assert(s.subrange(0, hi) =~= s);
    } else {
        assert(s[s.len() - 1] == s.last());
        lemma_trim_end_at(s.drop_last(), hi);
        assert(s.drop_last().subrange(0, hi) =~= s.subrange(0, hi));
    }
}

proof fn lemma_digits_val_nonneg(s: Seq<char>)
    requires
        all_digits(s),
    ensures
        digits_val(s) >= 0,
    decreases s.len(),
{
    if s.len() > 0 {
        assert(forall|k: int|
            0 <= k < s.drop_last().len() ==> s.drop_last()[k] == s[k]);
        lemma_digits_val_nonneg(s.drop_last());
        assert(s[s.len() - 1] == s.last());
    }
}

proof fn lemma_digits_val_prefix(s: Seq<char>, m: int)
    requires
        all_digits(s),
        0 <= m <= s.len(),
    ensures
        digits_val(s) >= digits_val(s.subrange(0, m)),
    decreases s.len(),
{
    if m == s.len() {
        assert(s.subrange(0, m) =~= s);
    } else {
        assert(forall|k: int|
            0 <= k < s.drop_last().len() ==> s.drop_last()[k] == s[k]);
        lemma_digits_val_prefix(s.drop_last(), m);
        lemma_digits_val_nonneg(s.drop_last());
        assert(s.drop_last().subrange(0, m) =~= s.subrange(0, m));
        assert(s[s.len() - 1] == s.last());
    }
}

/// Whether `c` is one of the whitespace characters trimmed around values.
fn is_space_char(c: char) -> (b: bool)
    ensures
        b == is_space(c),
{
    c == ' ' || c == '\t' || c == '\r' || c == '\n'
}

/// The decimal digit `c` stands for, or nothing.
fn digit_of(c: char) -> (d: Option<u64>)
    ensures
        match d {
            Some(v) => v < 10 && digit_val(c) == v as int,
            None => digit_val(c) < 0,
        },
{
    if c == '0' {
        Some(0)
    } else if c == '1' {
        Some(1)
    } else if c == '2' {
        Some(2)
    } else if c == '3' {
        Some(3)
    } else if c == '4' {
        Some(4)
    } else if c == '5' {
        Some(5)
    } else if c == '6' {
        Some(6)
    } else if c == '7' {
        Some(7)
    } else if c == '8' {
        Some(8)
    } else if c == '9' {
        Some(9)
    } else {
        None
    }
}

/// Character-exact string equality.
#[verifier::loop_isolation(false)]
fn str_eq(a: &str, b: &str) -> (r: bool)
    ensures
        r == (a@ == b@),
{
    let na = a.unicode_len();
    let nb = b.unicode_len();
    if na != nb {
        return false;
    }
    let mut j: usize = 0;
    while j < na
        invariant
            0 <= j <= na,
            forall|k: int| 0 <= k < j ==> a@[k] == b@[k],
        decreases na - j,
    {
        if a.get_char(j) != b.get_char(j) {
            return false;
        }
        j = j + 1;
    }
    proof {
        assert(a@ =~= b@);
    }
    true
}

/// Whether `s` begins with `p`, character for character.
#[verifier::loop_isolation(false)]
fn has_prefix(s: &str, p: &str) -> (r: bool)
    ensures
        r == (s@.len() >= p@.len() && s@.subrange(0, p@.len() as int) == p@),
{
    let np = p.unicode_len();
    let ns = s.unicode_len();
    if ns < np {
        return false;
    }
    let mut j: usize = 0;
    while j < np
        invariant
            0 <= j <= np,
            forall|k: int| 0 <= k < j ==> s@[k] == p@[k],
        decreases np - j,
    {
        if s.get_char(j) != p.get_char(j) {
            proof {
                assert(s@.subrange(0, p@.len() as int)[j as int] != p@[j as int]);
            }
            return false;
        }
        j = j + 1;
    }
    proof {
        assert(s@.subrange(0, p@.len() as int) =~= p@);
    }
    true
}

/// Interpret one line of encoder output: the notification it yields in
/// thousandths of a percent of `total_ms`, or nothing. Lines that are
/// neither a counter nor the end marker, and counters that do not parse,
/// yield nothing.
#[verifier::loop_isolation(false)]
#[verifier::rlimit(60)]
pub fn parse_progress_line(line: &str, total_ms: i64) -> (r: Option<u64>)
    ensures
        match r {
            Some(p) => progress_of_line(line@, total_ms as int) == Some(p as int),
            None => progress_of_line(line@, total_ms as int) is None,
        },
{
    if str_eq(line, "progress=end") {
        return Some(100000);
    }
    let pat = "out_time_us=";
    if !has_prefix(line, pat) {
        return None;
    }
    let np = pat.unicode_len();
    let n = line.unicode_len();
    let ghost rest = line@.subrange(np as int, n as int);
    let mut lo: usize = np;
    while lo < n && is_space_char(line.get_char(lo))
        invariant
            np <= lo <= n,
            forall|k: int| np <= k < lo ==> is_space(#[trigger] line@[k]),
        decreases n - lo,
    {
        lo = lo + 1;
    }
    let mut hi: usize = n;
    while hi > lo && is_space_char(line.get_char(hi - 1))
        invariant
            lo <= hi <= n,
            forall|k: int| hi <= k < n ==> is_space(#[trigger] line@[k]),
        decreases hi,
    {
        hi = hi - 1;
    }
    let ghost t = line@.subrange(lo as int, hi as int);
    proof {
        assert(forall|k: int|
            0 <= k < lo - np ==> is_space(#[trigger] rest[k]) && rest[k] == line@[k + np]);
        lemma_trim_start_at(rest, lo as int - np as int);
        let t1 = rest.subrange(lo as int - np as int, rest.len() as int);
        assert(t1 =~= line@.subrange(lo as int, n as int));
        assert(forall|k: int|
            hi - lo <= k < t1.len() ==> is_space(#[trigger] t1[k]));
        lemma_trim_end_at(t1, hi as int - lo as int);
        assert(t1.subrange(0, hi as int - lo as int) =~= t);
        assert(trimmed(rest) == t);
    }
    if lo == hi {
        proof {
            assert(t.len() == 0);
        }
        return None;
    }
    let mut acc: u128 = 0;
    let mut j: usize = lo;
    while j < hi
        invariant
            lo <= j <= hi,
            acc <= u64::MAX as u128,
            acc as int == digits_val(t.subrange(0, j as int - lo as int)),
            forall|k: int| lo <= k < j ==> digit_val(#[trigger] line@[k]) >= 0,
        decreases hi - j,
    {
        let c = line.get_char(j);
        match digit_of(c) {
            None => {
                proof {
                    assert(t[j as int - lo as int] == line@[j as int]);
                    assert(!all_digits(t));
                }
                return None;
            },
            Some(dv) => {
                let acc2 = acc * 10 + dv as u128;
                proof {
                    let m = j as int - lo as int;
                    assert(t.subrange(0, m + 1).drop_last() =~= t.subrange(0, m));
                    assert(t.subrange(0, m + 1).last() == line@[j as int]);
                }
                if acc2 > u64::MAX as u128 {
                    proof {
                        if all_digits(t) && digits_val(t) <= u64::MAX as int {
                            lemma_digits_val_prefix(t, j as int - lo as int + 1);
                            assert(false);
                        }
                    }
                    return None;
                }
                acc = acc2;
                j = j + 1;
            },
        }
    }
    proof {
        assert(t.subrange(0, hi as int - lo as int) =~= t);
        assert(all_digits(t)) by {
            assert(forall|k: int|
                0 <= k < t.len() ==> t[k] == #[trigger] line@[k + lo]);
        }
    }
    let us = acc as u64;
    let p: u64 = if total_ms > 0 {
        let total_us: u128 = (total_ms as u128) * 1000;
        let q: u128 = (us as u128) * 100000 / total_us;
        if q > 100000 {
            100000
        } else {
            q as u64
        }
    } else if total_ms == 0 {
        100000
    } else {
        0
    };
    Some(p)
}

} // verus!
