//! Character-level helpers for the schema strings that serializers carry:
//! splitting, trimming, searching and reading decimal numbers.

use vstd::prelude::*;
use vstd::std_specs::iter::IteratorSpec;

verus! {

/// Unicode `White_Space` characters, as `char::is_whitespace` documents them.
pub open spec fn is_white(c: char) -> bool {
    let u = c as u32;
    ||| 9 <= u <= 13
    ||| u == 32
    ||| u == 0x85
    ||| u == 0xA0
    ||| u == 0x1680
    ||| 0x2000 <= u <= 0x200A
    ||| u == 0x2028
    ||| u == 0x2029
    ||| u == 0x202F
    ||| u == 0x205F
    ||| u == 0x3000
}

/// Whether `c` is white space: the Unicode `White_Space` list above, the
/// characters `char::is_whitespace` accepts.
pub(crate) fn char_is_whitespace(c: char) -> (r: bool)
    ensures
        r == is_white(c),
{
    let u = c as u32;
    (9 <= u && u <= 13) || u == 32 || u == 0x85 || u == 0xA0 || u == 0x1680 || (0x2000 <= u && u <= 0x200A)
        || u == 0x2028 || u == 0x2029 || u == 0x202F || u == 0x205F || u == 0x3000
}

/// `s` without its leading white space.
pub open spec fn trim_start(s: Seq<char>) -> Seq<char>
    decreases s.len(),
{
    if s.len() > 0 && is_white(s[0]) {
        trim_start(s.drop_first())
    } else {
        s
    }
}

/// `s` without its trailing white space.
pub open spec fn trim_end(s: Seq<char>) -> Seq<char>
    decreases s.len(),
{
    if s.len() > 0 && is_white(s.last()) {
        trim_end(s.drop_last())
    } else {
        s
    }
}

/// `s` without leading and trailing white space, as `str::trim` gives it.
pub open spec fn trim(s: Seq<char>) -> Seq<char> {
    trim_end(trim_start(s))
}

/// Trimming the front never makes a string longer.
pub proof fn lemma_trim_start_len(s: Seq<char>)
    ensures
        trim_start(s).len() <= s.len(),
    decreases s.len(),
{
    if s.len() > 0 {
        lemma_trim_start_len(s.drop_first());
    }
}

/// Trimming the back never makes a string longer.
pub proof fn lemma_trim_end_len(s: Seq<char>)
    ensures
        trim_end(s).len() <= s.len(),
    decreases s.len(),
{
    if s.len() > 0 {
        lemma_trim_end_len(s.drop_last());
    }
}

/// Trimming never makes a string longer.
pub proof fn lemma_trim_len(s: Seq<char>)
    ensures
        trim(s).len() <= s.len(),
{
    lemma_trim_start_len(s);
    lemma_trim_end_len(trim_start(s));
}

/// The characters of `s`.
pub fn chars_of(s: &str) -> (r: Vec<char>)
    ensures
        r@ == s@,
{
    broadcast use vstd::string::axiom_spec_iter, vstd::string::next_postcondition;

    let mut it = s.chars();
    let mut out: Vec<char> = Vec::new();
    loop
        invariant
            out@ + it.remaining() == s@,
            it.obeys_prophetic_iter_laws(),
            it.decrease() is Some,
        decreases it.decrease()->0,
    {
        let ghost before = it.remaining();
        match it.next() {
            Some(c) => {
                out.push(c);
                proof {
                    assert(out@ + it.remaining() =~= s@);
                }
            },
            None => {
                assert(out@ =~= s@);
                return out;
            },
        }
    }
}

/// `s@.subrange(lo, hi)` as a vector.
pub fn sub_chars(s: &[char], lo: usize, hi: usize) -> (r: Vec<char>)
    requires
        lo <= hi <= s@.len(),
    ensures
        r@ == s@.subrange(lo as int, hi as int),
{
    let mut out: Vec<char> = Vec::new();
    let mut i = lo;
    while i < hi
        invariant
            lo <= i <= hi <= s@.len(),
            out@ == s@.subrange(lo as int, i as int),
        decreases hi - i,
    {
        out.push(s[i]);
        i = i + 1;
        proof {
            assert(out@ =~= s@.subrange(lo as int, i as int));
        }
    }
    out
}

/// `s` without leading and trailing white space.
pub fn trimmed(s: &[char]) -> (r: Vec<char>)
    ensures
        r@ == trim(s@),
{
    let mut lo: usize = 0;
    proof {
        assert(s@.skip(0) =~= s@);
    }
    while lo < s.len() && char_is_whitespace(s[lo])
        invariant
            lo <= s@.len(),
            trim_start(s@) == trim_start(s@.skip(lo as int)),
        decreases s@.len() - lo,
    {
        proof {
            assert(s@.skip(lo as int).drop_first() =~= s@.skip(lo + 1));
        }
        lo = lo + 1;
    }
    let mut hi: usize = s.len();
    let ghost t = s@.skip(lo as int);
    proof {
        assert(trim_start(s@) == t);
    }
    while hi > lo && char_is_whitespace(s[hi - 1])
        invariant
            lo <= hi <= s@.len(),
            t == s@.skip(lo as int),
            trim_end(t) == trim_end(s@.subrange(lo as int, hi as int)),
        decreases hi - lo,
    {
        proof {
            assert(s@.subrange(lo as int, hi as int).drop_last() =~= s@.subrange(
                lo as int,
                hi - 1,
            ));
        }
        hi = hi - 1;
    }
    proof {
        assert(s@.skip(lo as int) =~= s@.subrange(lo as int, s@.len() as int));
    }
    sub_chars(s, lo, hi)
}

/// Index of the first `c` in `s` at or after `i`.
pub open spec fn find_from(s: Seq<char>, c: char, i: nat) -> Option<nat>
    decreases s.len() - i,
{
    if i >= s.len() {
        None
    } else if s[i as int] == c {
        Some(i)
    } else {
        find_from(s, c, i + 1)
    }
}

/// Index of the first `c` in `s`, as `str::find` gives it.
pub open spec fn find_first(s: Seq<char>, c: char) -> Option<nat> {
    find_from(s, c, 0)
}

/// Index of the last `c` in `s` before index `i`.
pub open spec fn find_last_before(s: Seq<char>, c: char, i: int) -> Option<nat>
    decreases i,
{
    if i <= 0 {
        None
    } else if s[i - 1] == c {
        Some((i - 1) as nat)
    } else {
        find_last_before(s, c, i - 1)
    }
}

/// Index of the last `c` in `s`, as `str::rfind` gives it.
pub open spec fn find_last(s: Seq<char>, c: char) -> Option<nat> {
    find_last_before(s, c, s.len() as int)
}

/// A found index lies inside the string and holds the character.
pub proof fn lemma_find_bounds(s: Seq<char>, c: char, i: nat)
    ensures
        find_from(s, c, i) matches Some(k) ==> i <= k < s.len() && s[k as int] == c,
    decreases s.len() - i,
{
    if i < s.len() && s[i as int] != c {
        lemma_find_bounds(s, c, i + 1);
    }
}

/// A found index lies inside the string and holds the character.
pub proof fn lemma_find_last_bounds(s: Seq<char>, c: char, i: int)
    requires
        i <= s.len(),
    ensures
        find_last_before(s, c, i) matches Some(k) ==> k < i && s[k as int] == c,
    decreases i,
{
    if i > 0 && s[i - 1] != c {
        lemma_find_last_bounds(s, c, i - 1);
    }
}

/// Index of the first `c` in `s`.
pub fn find_char(s: &[char], c: char) -> (r: Option<usize>)
    ensures
        r is Some <==> find_first(s@, c) is Some,
        r matches Some(k) ==> find_first(s@, c) == Some(k as nat),
        r matches Some(k) ==> k < s@.len() && s@[k as int] == c,
{
    proof {
        lemma_find_bounds(s@, c, 0);
    }
    let mut i: usize = 0;
    while i < s.len()
        invariant
            i <= s@.len(),
            find_first(s@, c) == find_from(s@, c, i as nat),
        decreases s@.len() - i,
    {
        if s[i] == c {
            return Some(i);
        }
        i = i + 1;
    }
    None
}

/// Index of the last `c` in `s`.
pub fn rfind_char(s: &[char], c: char) -> (r: Option<usize>)
    ensures
        r is Some <==> find_last(s@, c) is Some,
        r matches Some(k) ==> find_last(s@, c) == Some(k as nat),
        r matches Some(k) ==> k < s@.len() && s@[k as int] == c,
{
    proof {
        lemma_find_last_bounds(s@, c, s@.len() as int);
    }
    let mut i: usize = s.len();
    while i > 0
        invariant
            i <= s@.len(),
            find_last(s@, c) == find_last_before(s@, c, i as int),
        decreases i,
    {
        if s[i - 1] == c {
            return Some(i - 1);
        }
        i = i - 1;
    }
    None
}

/// Whether two character sequences are equal.
pub fn same_chars(a: &[char], b: &[char]) -> (r: bool)
    ensures
        r == (a@ == b@),
{
    if a.len() != b.len() {
        return false;
    }
    let mut i: usize = 0;
    while i < a.len()
        invariant
            i <= a@.len() == b@.len(),
            a@.take(i as int) == b@.take(i as int),
        decreases a@.len() - i,
    {
        if a[i] != b[i] {
            return false;
        }
        i = i + 1;
        proof {
            assert(a@.take(i as int) =~= a@.take(i - 1).push(a@[i - 1]));
            assert(b@.take(i as int) =~= b@.take(i - 1).push(b@[i - 1]));
        }
    }
    proof {
        assert(a@.take(i as int) =~= a@);
        assert(b@.take(i as int) =~= b@);
    }
    true
}

/// Whether the characters of `a` spell `b`.
pub fn is_text(a: &[char], b: &str) -> (r: bool)
    ensures
        r == (a@ == b@),
{
    let chars = chars_of(b);
    same_chars(a, chars.as_slice())
}

/// Value of a run of decimal digits.
pub open spec fn digits_value(s: Seq<char>) -> nat
    decreases s.len(),
{
    if s.len() == 0 {
        0
    } else {
        digits_value(s.drop_last()) * 10 + ((s.last() as nat) - 48) as nat
    }
}

/// Every character of `s` is an ASCII digit.
pub open spec fn all_digits(s: Seq<char>) -> bool {
    forall|i: int| 0 <= i < s.len() ==> '0' <= #[trigger] s[i] <= '9'
}

/// The digits of an unsigned number after an optional `+` sign.
pub open spec fn unsigned_body(s: Seq<char>) -> Seq<char> {
    if s.len() > 0 && s[0] == '+' {
        s.drop_first()
    } else {
        s
    }
}

/// What `usize::from_str` gives for `s`: an optional `+` and one or more
/// ASCII digits whose value fits.
pub open spec fn parse_usize(s: Seq<char>) -> Option<usize> {
    let body = unsigned_body(s);
    if body.len() > 0 && all_digits(body) && digits_value(body) <= usize::MAX {
        Some(digits_value(body) as usize)
    } else {
        None
    }
}

/// What `i32::from_str` gives for `s`: an optional sign and one or more
/// ASCII digits whose signed value fits.
pub open spec fn parse_i32(s: Seq<char>) -> Option<i32> {
    if s.len() > 0 && s[0] == '-' {
        let body = s.drop_first();
        if body.len() > 0 && all_digits(body) && digits_value(body) <= 0x8000_0000 {
            Some((0 - digits_value(body)) as i32)
        } else {
            None
        }
    } else {
        let body = unsigned_body(s);
        if body.len() > 0 && all_digits(body) && digits_value(body) <= 0x7fff_ffff {
            Some(digits_value(body) as i32)
        } else {
            None
        }
    }
}

/// Value of the digits of `s` from `lo` to `hi`, or `None` once it passes `max`.
fn digits_up_to(s: &[char], lo: usize, hi: usize, max: u64) -> (r: Option<u64>)
    requires
        lo <= hi <= s@.len(),
        all_digits(s@.subrange(lo as int, hi as int)),
        max >= 9,
    ensures
        r matches Some(v) ==> v == digits_value(s@.subrange(lo as int, hi as int)) && v <= max,
        r is None ==> digits_value(s@.subrange(lo as int, hi as int)) > max,
{
    let mut value: u64 = 0;
    let mut i = lo;
    while i < hi
        invariant
            lo <= i <= hi <= s@.len(),
            all_digits(s@.subrange(lo as int, hi as int)),
            value == digits_value(s@.subrange(lo as int, i as int)),
            value <= max,
            max >= 9,
        decreases hi - i,
    {
        let ghost prefix = s@.subrange(lo as int, i as int);
        let ghost next = s@.subrange(lo as int, i + 1);
        assert(s@.subrange(lo as int, hi as int)[i - lo] == s@[i as int]);
        let d = (s[i] as u32 - 48) as u64;
        proof {
            assert(next.drop_last() =~= prefix);
            assert(next.last() == s@[i as int]);
        }
        if value > (max - d) / 10 {
            proof {
                assert(digits_value(next) > max) by (nonlinear_arith)
                    requires
                        digits_value(next) == value * 10 + d,
                        value > (max - d) / 10,
                        d <= max || d > max,
                ;
                lemma_digits_value_mono(s@.subrange(lo as int, hi as int), (i + 1 - lo) as nat);
                assert(s@.subrange(lo as int, hi as int).take(i + 1 - lo) =~= next);
            }
            return None;
        }
        value = value * 10 + d;
        i = i + 1;
    }
    Some(value)
}

/// A longer run of digits is worth at least as much as its prefix.
proof fn lemma_digits_value_mono(s: Seq<char>, k: nat)
    requires
        k <= s.len(),
        all_digits(s),
    ensures
        digits_value(s.take(k as int)) <= digits_value(s),
    decreases s.len() - k,
{
    if k < s.len() {
        lemma_digits_value_mono(s, k + 1);
        assert(s.take((k + 1) as int).drop_last() =~= s.take(k as int));
        assert(s.take((k + 1) as int).last() == s[k as int]);
        assert('0' <= s[k as int] <= '9');
    } else {
        assert(s.take(k as int) =~= s);
    }
}

/// Read an unsigned decimal number the way `usize::from_str` does.
pub fn parse_usize_chars(s: &[char]) -> (r: Option<usize>)
    ensures
        r == parse_usize(s@),
{
    let lo: usize = if s.len() > 0 && s[0] == '+' {
        1
    } else {
        0
    };
    proof {
        assert(unsigned_body(s@) =~= s@.subrange(lo as int, s@.len() as int));
    }
    if lo >= s.len() {
        return None;
    }
    let mut i = lo;
    while i < s.len()
        invariant
            lo <= i <= s@.len(),
            all_digits(s@.subrange(lo as int, i as int)),
            unsigned_body(s@) == s@.subrange(lo as int, s@.len() as int),
        decreases s@.len() - i,
    {
        if s[i] < '0' || s[i] > '9' {
            proof {
                let body = s@.subrange(lo as int, s@.len() as int);
                assert(!('0' <= body[i - lo] <= '9'));
            }
            return None;
        }
        i = i + 1;
        proof {
            let p = s@.subrange(lo as int, i as int);
            assert forall|k: int| 0 <= k < p.len() implies '0' <= #[trigger] p[k] <= '9' by {
                if k < p.len() - 1 {
                    assert(p[k] == s@.subrange(lo as int, i - 1)[k]);
                }
            }
        }
    }
    match digits_up_to(s, lo, s.len(), usize::MAX as u64) {
        Some(v) => Some(v as usize),
        None => None,
    }
}

/// Read a signed decimal number the way `i32::from_str` does.
pub fn parse_i32_chars(s: &[char]) -> (r: Option<i32>)
    ensures
        r == parse_i32(s@),
{
    let negative = s.len() > 0 && s[0] == '-';
    let lo: usize = if s.len() > 0 && (s[0] == '+' || s[0] == '-') {
        1
    } else {
        0
    };
    let ghost body = s@.subrange(lo as int, s@.len() as int);
    proof {
        if negative {
            assert(s@.drop_first() =~= body);
        } else {
            assert(unsigned_body(s@) =~= body);
        }
    }
    if lo >= s.len() {
        return None;
    }
    let mut i = lo;
    while i < s.len()
        invariant
            lo <= i <= s@.len(),
            all_digits(s@.subrange(lo as int, i as int)),
            body == s@.subrange(lo as int, s@.len() as int),
            negative == (s@.len() > 0 && s@[0] == '-'),
            negative ==> s@.drop_first() == body,
            !negative ==> unsigned_body(s@) == body,
        decreases s@.len() - i,
    {
        if s[i] < '0' || s[i] > '9' {
            proof {
                assert(!('0' <= body[i - lo] <= '9'));
            }
            return None;
        }
        i = i + 1;
        proof {
            let p = s@.subrange(lo as int, i as int);
            assert forall|k: int| 0 <= k < p.len() implies '0' <= #[trigger] p[k] <= '9' by {
                if k < p.len() - 1 {
                    assert(p[k] == s@.subrange(lo as int, i - 1)[k]);
                }
            }
        }
    }
    let max: u64 = if negative {
        0x8000_0000
    } else {
        0x7fff_ffff
    };
    match digits_up_to(s, lo, s.len(), max) {
        Some(v) => {
            if negative {
                Some((0i64 - v as i64) as i32)
            } else {
                Some(v as i32)
            }
        },
        None => None,
    }
}

} // verus!
