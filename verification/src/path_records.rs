//! Recorded field-path lists used to measure the field-path decoder.
//!
//! Each record is one text line of four words: the number of path bits,
//! the number of decoded fields, a hexadecimal digest of the decoded paths,
//! and the path bits as hexadecimal bytes. A record is loaded with its bits
//! shifted to start at a chosen bit alignment, followed by zero padding.
use vstd::prelude::*;

use vstd::arithmetic::power2::pow2;
use vstd::bits::lemma_u8_shr_is_div;

use crate::chars::{char_is_whitespace, chars_of, is_white, parse_usize, parse_usize_chars, unsigned_body};
use crate::io::lemma_push_zero;
use crate::io::bits::{bit_of, bytes_for_bits, stream_bits, value_bits};
use crate::io::BitWriter;

verus! {

/// The words of `s` after the word `cur` begun so far: maximal runs of
/// characters that are not white space.
pub open spec fn words_after(s: Seq<char>, cur: Seq<char>) -> Seq<Seq<char>>
    decreases s.len(),
{
    if s.len() == 0 {
        if cur.len() > 0 {
            seq![cur]
        } else {
            Seq::empty()
        }
    } else if is_white(s[0]) {
        (if cur.len() > 0 {
            seq![cur]
        } else {
            Seq::<Seq<char>>::empty()
        }) + words_after(s.drop_first(), Seq::empty())
    } else {
        words_after(s.drop_first(), cur.push(s[0]))
    }
}

/// The words of `s`, as `str::split_whitespace` gives them.
pub open spec fn words(s: Seq<char>) -> Seq<Seq<char>> {
    words_after(s, Seq::empty())
}

/// No word is longer than the text it comes from.
proof fn lemma_words_after_len(s: Seq<char>, cur: Seq<char>)
    ensures
        forall|k: int|
            0 <= k < words_after(s, cur).len() ==> #[trigger] words_after(s, cur)[k].len() <= cur.len() + s.len(),
    decreases s.len(),
{
    let all = words_after(s, cur);
    if s.len() == 0 {
        if cur.len() > 0 {
            assert(all == seq![cur]);
        } else {
            assert(all == Seq::<Seq<char>>::empty());
        }
    } else if is_white(s[0]) {
        lemma_words_after_len(s.drop_first(), Seq::empty());
        let head = if cur.len() > 0 {
            seq![cur]
        } else {
            Seq::<Seq<char>>::empty()
        };
        let tail = words_after(s.drop_first(), Seq::empty());
        assert(all == head + tail);
        assert forall|k: int| 0 <= k < all.len() implies #[trigger] all[k].len() <= cur.len() + s.len() by {
            if k >= head.len() {
                assert(all[k] == tail[k - head.len()]);
            } else {
                assert(all[k] == cur);
            }
        }
    } else {
        lemma_words_after_len(s.drop_first(), cur.push(s[0]));
        assert(all == words_after(s.drop_first(), cur.push(s[0])));
    }
}

/// No word is longer than the text it comes from.
proof fn lemma_words_len(s: Seq<char>)
    ensures
        forall|k: int| 0 <= k < words(s).len() ==> #[trigger] words(s)[k].len() <= s.len(),
{
    lemma_words_after_len(s, Seq::empty());
}

/// The views of a list of character vectors.
pub open spec fn char_vecs_view(v: Seq<Vec<char>>) -> Seq<Seq<char>> {
    v.map_values(|w: Vec<char>| w@)
}

/// Split `s` into its words.
fn split_words(s: &[char]) -> (r: Vec<Vec<char>>)
    ensures
        char_vecs_view(r@) == words(s@),
{
    let mut out: Vec<Vec<char>> = Vec::new();
    let mut cur: Vec<char> = Vec::new();
    let mut i: usize = 0;
    proof {
        assert(s@.skip(0) =~= s@);
        assert(char_vecs_view(out@) =~= Seq::<Seq<char>>::empty());
    }
    while i < s.len()
        invariant
            i <= s@.len(),
            char_vecs_view(out@) + words_after(s@.skip(i as int), cur@) == words(s@),
        decreases s@.len() - i,
    {
        let c = s[i];
        let ghost rest = s@.skip(i as int);
        assert(rest[0] == c);
        assert(rest.drop_first() =~= s@.skip(i + 1));
        if char_is_whitespace(c) {
            if cur.len() > 0 {
                let ghost before = char_vecs_view(out@);
                let ghost word = cur@;
                let w = cur;
                out.push(w);
                cur = Vec::new();
                assert(char_vecs_view(out@) =~= before.push(word));
                assert(before + (seq![word] + words_after(s@.skip(i + 1), Seq::empty())) =~= before.push(word)
                    + words_after(s@.skip(i + 1), Seq::empty()));
            } else {
                assert(Seq::<Seq<char>>::empty() + words_after(s@.skip(i + 1), Seq::empty()) =~= words_after(
                    s@.skip(i + 1),
                    Seq::empty(),
                ));
                assert(cur@ =~= Seq::<char>::empty());
            }
        } else {
            cur.push(c);
        }
        i = i + 1;
    }
    assert(s@.skip(i as int) =~= Seq::<char>::empty());
    if cur.len() > 0 {
        let ghost before = char_vecs_view(out@);
        let ghost word = cur@;
        out.push(cur);
        assert(char_vecs_view(out@) =~= before.push(word));
        assert(before + seq![word] =~= before.push(word));
    } else {
        assert(char_vecs_view(out@) + Seq::<Seq<char>>::empty() =~= char_vecs_view(out@));
    }
    out
}

/// The value of a hexadecimal digit, if `c` is one.
pub open spec fn hex_digit(c: char) -> Option<nat> {
    if '0' <= c <= '9' {
        Some((c as nat - 48) as nat)
    } else if 'a' <= c <= 'f' {
        Some((c as nat - 87) as nat)
    } else if 'A' <= c <= 'F' {
        Some((c as nat - 55) as nat)
    } else {
        None
    }
}

/// Every character of `s` is a hexadecimal digit.
pub open spec fn all_hex(s: Seq<char>) -> bool {
    forall|i: int| 0 <= i < s.len() ==> #[trigger] hex_digit(s[i]) is Some
}

/// The value of a run of hexadecimal digits.
pub open spec fn hex_value(s: Seq<char>) -> nat
    decreases s.len(),
{
    if s.len() == 0 {
        0
    } else {
        hex_value(s.drop_last()) * 16 + hex_digit(s.last())->0
    }
}

/// What `from_str_radix(s, 16)` gives for an unsigned type whose largest
/// value is `max`: an optional `+` and one or more hexadecimal digits whose
/// value fits.
pub open spec fn parse_hex(s: Seq<char>, max: nat) -> Option<nat> {
    let body = unsigned_body(s);
    if body.len() > 0 && all_hex(body) && hex_value(body) <= max {
        Some(hex_value(body))
    } else {
        None
    }
}

/// The value of a hexadecimal digit.
fn hex_digit_value(c: char) -> (r: Option<u64>)
    ensures
        r matches Some(v) ==> hex_digit(c) == Some(v as nat),
        r is None ==> hex_digit(c) is None,
{
    if '0' <= c && c <= '9' {
        Some(c as u64 - 48)
    } else if 'a' <= c && c <= 'f' {
        Some(c as u64 - 87)
    } else if 'A' <= c && c <= 'F' {
        Some(c as u64 - 55)
    } else {
        None
    }
}

/// A longer run of hexadecimal digits is worth at least as much as its
/// prefix.
proof fn lemma_hex_value_mono(s: Seq<char>, k: nat)
    requires
        k <= s.len(),
        all_hex(s),
    ensures
        hex_value(s.take(k as int)) <= hex_value(s),
    decreases s.len() - k,
{
    if k < s.len() {
        lemma_hex_value_mono(s, k + 1);
        assert(s.take((k + 1) as int).drop_last() =~= s.take(k as int));
        assert(s.take((k + 1) as int).last() == s[k as int]);
        assert(hex_digit(s[k as int]) is Some);
    } else {
        assert(s.take(k as int) =~= s);
    }
}

/// Read a hexadecimal number the way `from_str_radix(s, 16)` does for an
/// unsigned type whose largest value is `max`.
fn parse_hex_chars(s: &[char], max: u64) -> (r: Option<u64>)
    requires
        max >= 15,
    ensures
        r matches Some(v) ==> parse_hex(s@, max as nat) == Some(v as nat),
        r is None ==> parse_hex(s@, max as nat) is None,
{
    let lo: usize = if s.len() > 0 && s[0] == '+' {
        1
    } else {
        0
    };
    let ghost body = s@.subrange(lo as int, s@.len() as int);
    assert(unsigned_body(s@) =~= body);
    if lo >= s.len() {
        return None;
    }
    let mut value: u64 = 0;
    let mut i = lo;
    while i < s.len()
        invariant
            lo <= i <= s@.len(),
            body == s@.subrange(lo as int, s@.len() as int),
            unsigned_body(s@) == body,
            all_hex(s@.subrange(lo as int, i as int)),
            value == hex_value(s@.subrange(lo as int, i as int)),
            value <= max,
            max >= 15,
        decreases s@.len() - i,
    {
        let ghost prefix = s@.subrange(lo as int, i as int);
        let ghost next = s@.subrange(lo as int, i + 1);
        assert(next.drop_last() =~= prefix);
        assert(next.last() == s@[i as int]);
        let d = match hex_digit_value(s[i]) {
            Some(d) => d,
            None => {
                assert(body[i - lo] == s@[i as int]);
                assert(hex_digit(body[i - lo]) is None);
                return None;
            },
        };
        assert(hex_value(next) == value * 16 + d);
        if value > (max - d) / 16 {
            proof {
                assert(hex_value(next) > max) by (nonlinear_arith)
                    requires
                        hex_value(next) == value * 16 + d,
                        value > (max - d) / 16,
                        d <= 15,
                        max >= 15,
                ;
                if all_hex(body) {
                    lemma_hex_value_mono(body, (i + 1 - lo) as nat);
                    assert(body.take(i + 1 - lo) =~= next);
                }
            }
            return None;
        }
        assert(value * 16 + d <= max) by (nonlinear_arith)
            requires
                value <= (max - d) / 16,
                d <= 15,
                max >= 15,
        ;
        value = value * 16 + d;
        i = i + 1;
        assert(all_hex(s@.subrange(lo as int, i as int))) by {
            assert forall|k: int| 0 <= k < next.len() implies #[trigger] hex_digit(next[k]) is Some by {
                if k < prefix.len() {
                    assert(next[k] == prefix[k]);
                }
            }
        }
    }
    assert(s@.subrange(lo as int, i as int) =~= body);
    Some(value)
}

/// The byte written as the hexadecimal pair at position `i` of `hex`, as
/// `u8::from_str_radix` reads it.
pub open spec fn hex_pair(hex: Seq<char>, i: int) -> Option<nat> {
    parse_hex(hex.subrange(2 * i, 2 * i + 2), 255)
}

/// `hex` is a whole number of hexadecimal pairs.
pub open spec fn hex_pairs_ok(hex: Seq<char>) -> bool {
    &&& hex.len() % 2 == 0
    &&& forall|i: int| 0 <= i < hex.len() / 2 ==> #[trigger] hex_pair(hex, i) is Some
}

/// The bytes written as hexadecimal pairs in `hex`.
pub open spec fn hex_bytes(hex: Seq<char>) -> Seq<u8> {
    Seq::new(hex.len() / 2, |i: int| hex_pair(hex, i)->0 as u8)
}

/// The four fields of a record line.
pub struct RecordFields {
    pub bits: usize,
    pub fields: usize,
    pub digest: u64,
    pub raw: Seq<u8>,
}

/// The fields of a record line: exactly four words, two decimal numbers,
/// a hexadecimal digest and whole hexadecimal bytes, as many bytes as the
/// bit count needs. `None` for any other line.
pub open spec fn record_fields(line: Seq<char>) -> Option<RecordFields> {
    let w = words(line);
    if w.len() == 4 && parse_usize(w[0]) is Some && parse_usize(w[1]) is Some && parse_hex(w[2], u64::MAX as nat)
        is Some && hex_pairs_ok(w[3]) && hex_bytes(w[3]).len() == bytes_for_bits(parse_usize(w[0])->0 as nat) {
        Some(
            RecordFields {
                bits: parse_usize(w[0])->0,
                fields: parse_usize(w[1])->0,
                digest: parse_hex(w[2], u64::MAX as nat)->0 as u64,
                raw: hex_bytes(w[3]),
            },
        )
    } else {
        None
    }
}

/// `bytes` holds the first `bits` bits of `raw` from bit `alignment` on,
/// every other bit clear, and `trailing` bytes after the last one the bits
/// reach.
pub open spec fn aligned_bytes(raw: Seq<u8>, bits: nat, alignment: nat, trailing: nat, bytes: Seq<u8>) -> bool {
    &&& bytes.len() == bytes_for_bits(bits + alignment) + trailing
    &&& forall|j: int|
        0 <= j < 8 * bytes.len() ==> #[trigger] bit_of(bytes, j) == (alignment <= j < alignment + bits && bit_of(
            raw,
            j - alignment,
        ))
}

/// One recorded path list.
pub struct PathRecord {
    /// Encoded bits, with prefix alignment and trailing padding.
    pub bytes: Vec<u8>,
    /// First path bit.
    pub offset: usize,
    /// Number of path-list bits, including the finishing operation.
    pub bits: usize,
    /// Expected number of decoded fields.
    pub fields: usize,
    /// Rolling digest of the decoded paths.
    pub digest: u64,
}

/// Whether a line of a record file holds a record: it is not empty and
/// is not a `#` comment.
pub fn is_record_line(line: &str) -> (r: bool)
    ensures
        r == (line@.len() > 0 && line@[0] != '#'),
{
    let chars = chars_of(line);
    chars.len() > 0 && chars[0] != '#'
}

/// Read the hexadecimal pairs of `hex` as bytes.
fn parse_hex_bytes(hex: &Vec<char>) -> (r: Option<Vec<u8>>)
    ensures
        r matches Some(v) ==> hex_pairs_ok(hex@) && v@ == hex_bytes(hex@),
        r is None ==> !hex_pairs_ok(hex@),
{
    if hex.len() % 2 != 0 {
        return None;
    }
    let mut raw: Vec<u8> = Vec::new();
    let len = hex.len();
    let n = len / 2;
    assert(2 * n == hex@.len());
    let mut i: usize = 0;
    while i < n
        invariant
            i <= n,
            n == hex@.len() / 2,
            2 * n == hex@.len(),
            len == hex@.len(),
            hex@.len() % 2 == 0,
            raw@.len() == i,
            forall|k: int| 0 <= k < i ==> #[trigger] hex_pair(hex@, k) is Some && raw@[k] == hex_pair(hex@, k)->0 as u8,
        decreases n - i,
    {
        let pair = crate::chars::sub_chars(hex.as_slice(), 2 * i, 2 * i + 2);
        match parse_hex_chars(pair.as_slice(), 255) {
            Some(v) => {
                raw.push(v as u8);
            },
            None => {
                assert(!(hex_pair(hex@, i as int) is Some));
                return None;
            },
        }
        i = i + 1;
    }
    assert(raw@ =~= hex_bytes(hex@));
    Some(raw)
}

/// Append `count` zero bytes.
fn push_zero_bytes(bytes: &mut Vec<u8>, count: usize)
    ensures
        final(bytes)@.len() == old(bytes)@.len() + count,
        forall|j: int|
            0 <= j < 8 * final(bytes)@.len() ==> #[trigger] bit_of(final(bytes)@, j) == (j < 8 * old(bytes)@.len()
                && bit_of(old(bytes)@, j)),
{
    let mut k: usize = 0;
    while k < count
        invariant
            k <= count,
            bytes@.len() == old(bytes)@.len() + k,
            forall|j: int|
                0 <= j < 8 * bytes@.len() ==> #[trigger] bit_of(bytes@, j) == (j < 8 * old(bytes)@.len() && bit_of(
                    old(bytes)@,
                    j,
                )),
        decreases count - k,
    {
        let ghost before = bytes@;
        proof {
            lemma_push_zero(before);
        }
        bytes.push(0u8);
        k = k + 1;
    }
}

/// Lay out `bits` bits of `raw` from bit `alignment` on, followed by
/// `trailing` zero bytes.
fn align_bits(raw: &Vec<u8>, bits: usize, alignment: usize, trailing: usize) -> (r: Vec<u8>)
    requires
        alignment < 8,
        bits <= 8 * raw@.len(),
        bits + alignment + 8 + trailing <= usize::MAX,
    ensures
        aligned_bytes(raw@, bits as nat, alignment as nat, trailing as nat, r@),
{
    let mut writer = BitWriter::new();
    writer.push_bits(0, alignment);
    let mut bit: usize = 0;
    while bit < bits
        invariant
            bit <= bits <= 8 * raw@.len(),
            alignment < 8,
            bits + alignment + 8 + trailing <= usize::MAX,
            writer.wf(),
            writer.spec_bits() == value_bits(0, alignment as nat) + stream_bits(raw@).take(bit as int),
        decreases bits - bit,
    {
        let byte = raw[bit / 8];
        let shift = (bit % 8) as u8;
        proof {
            lemma_u8_shr_is_div(byte, shift);
        }
        let b = (byte >> shift) % 2 == 1;
        assert(b == bit_of(raw@, bit as int));
        writer.push_bool(b);
        bit = bit + 1;
        assert(writer.spec_bits() =~= value_bits(0, alignment as nat) + stream_bits(raw@).take(bit as int));
    }
    let ghost written = writer.spec_bits();
    let mut bytes = writer.finish();
    let ghost laid = bytes@;
    push_zero_bytes(&mut bytes, trailing);
    proof {
        assert forall|j: int| 0 <= j < 8 * bytes@.len() implies #[trigger] bit_of(bytes@, j) == (alignment <= j
            < alignment + bits && bit_of(raw@, j - alignment)) by {
            if j < 8 * laid.len() {
                assert(stream_bits(laid)[j] == bit_of(laid, j));
                if j < alignment + bits {
                    assert(stream_bits(laid).take(written.len() as int)[j] == written[j]);
                    if j < alignment {
                        assert(written[j] == value_bits(0, alignment as nat)[j]);
                        assert(0nat / pow2(j as nat) == 0) by {
                            vstd::arithmetic::power2::lemma_pow2_pos(j as nat);
                        }
                    } else {
                        assert(written[j] == stream_bits(raw@).take(bits as int)[j - alignment]);
                    }
                }
            }
        }
    }
    bytes
}

/// Read one record line, with its bits laid out from bit `alignment` on
/// and `trailing_bytes` of zero padding after them.
pub fn parse_path_record(line: &str, alignment: usize, trailing_bytes: usize) -> (r: Option<PathRecord>)
    requires
        alignment < 8,
        4 * line@.len() + 16 + trailing_bytes <= usize::MAX,
    ensures
        match record_fields(line@) {
            None => r is None,
            Some(f) => r matches Some(rec) && rec.offset == alignment && rec.bits == f.bits && rec.fields == f.fields
                && rec.digest == f.digest && aligned_bytes(
                f.raw,
                f.bits as nat,
                alignment as nat,
                trailing_bytes as nat,
                rec.bytes@,
            ),
        },
{
    let chars = chars_of(line);
    let parts = split_words(chars.as_slice());
    let ghost w = words(line@);
    assert(char_vecs_view(parts@) == w);
    if parts.len() != 4 {
        return None;
    }
    assert(parts@[0]@ == w[0] && parts@[1]@ == w[1] && parts@[2]@ == w[2] && parts@[3]@ == w[3]);
    let bits = match parse_usize_chars(parts[0].as_slice()) {
        Some(b) => b,
        None => return None,
    };
    let fields = match parse_usize_chars(parts[1].as_slice()) {
        Some(f) => f,
        None => return None,
    };
    let digest = match parse_hex_chars(parts[2].as_slice(), u64::MAX) {
        Some(d) => d,
        None => return None,
    };
    let raw = match parse_hex_bytes(&parts[3]) {
        Some(raw) => raw,
        None => return None,
    };
    let needed = bits / 8 + if bits % 8 == 0 {
        0
    } else {
        1
    };
    assert(needed == bytes_for_bits(bits as nat));
    if raw.len() != needed {
        return None;
    }
    proof {
        lemma_words_len(line@);
        assert(w[3].len() <= line@.len());
    }
    let bytes = align_bits(&raw, bits, alignment, trailing_bytes);
    Some(PathRecord { bytes, offset: alignment, bits, fields, digest: digest })
}

} // verus!
