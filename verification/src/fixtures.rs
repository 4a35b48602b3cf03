//! Deterministic synthetic inputs for measuring the parsers, so that runs
//! are comparable across machines and need no real demo files.
use vstd::prelude::*;

use crate::io::bits::{bytes_for_bits, stream_bits, value_bits};
use crate::io::{ubitvar_bits, uvarint_bytes, BitWriter};

verus! {

/// ASCII decimal digits of `n`, most significant first.
pub open spec fn decimal_bytes(n: nat) -> Seq<u8>
    decreases n,
{
    if n < 10 {
        seq![(n + 48) as u8]
    } else {
        decimal_bytes(n / 10).push((n % 10 + 48) as u8)
    }
}

/// `s` preceded by ASCII zeros up to `width` bytes.
pub open spec fn zero_padded(s: Seq<u8>, width: nat) -> Seq<u8> {
    if s.len() < width {
        Seq::new((width - s.len()) as nat, |i: int| 48u8) + s
    } else {
        s
    }
}

/// The key of synthetic string-table entry `index`: `entry-` and the index
/// in at least five decimal digits.
pub open spec fn entry_key(index: nat) -> Seq<u8> {
    seq![101u8, 110u8, 116u8, 114u8, 121u8, 45u8] + zero_padded(decimal_bytes(index), 5)
}

/// One entry as a string-table update encodes it: the next index, a key
/// that is not taken from history, the key itself, and no user data.
pub open spec fn entry_bits(index: nat) -> Seq<bool> {
    seq![true, true, false] + stream_bits(entry_key(index).push(0u8)) + seq![false]
}

/// Entries `0..count` one after another.
pub open spec fn entries_bits(count: nat) -> Seq<bool>
    decreases count,
{
    if count == 0 {
        Seq::empty()
    } else {
        entries_bits((count - 1) as nat) + entry_bits((count - 1) as nat)
    }
}

/// The encoding only grows with the entry count.
proof fn lemma_entries_bits_grow(k: nat, n: nat)
    requires
        k <= n,
    ensures
        entries_bits(k).len() <= entries_bits(n).len(),
    decreases n - k,
{
    if k < n {
        lemma_entries_bits_grow(k, (n - 1) as nat);
    }
}

/// Append the ASCII decimal digits of `n`.
fn push_decimal_bytes(out: &mut Vec<u8>, n: u64)
    ensures
        final(out)@ == old(out)@ + decimal_bytes(n as nat),
    decreases n,
{
    if n >= 10 {
        push_decimal_bytes(out, n / 10);
    }
    out.push((n % 10) as u8 + 48);
    proof {
        if n >= 10 {
            assert(decimal_bytes(n as nat) == decimal_bytes((n / 10) as nat).push(((n % 10) as nat + 48) as u8));
        }
    }
}

/// The key of synthetic entry `index`.
fn entry_key_bytes(index: u64) -> (r: Vec<u8>)
    ensures
        r@ == entry_key(index as nat),
{
    let mut digits: Vec<u8> = Vec::new();
    push_decimal_bytes(&mut digits, index);
    assert(digits@ =~= decimal_bytes(index as nat));
    let mut key: Vec<u8> = vec![101u8, 110u8, 116u8, 114u8, 121u8, 45u8];
    let ghost prefix = key@;
    let mut pad = digits.len();
    while pad < 5
        invariant
            digits.len() <= pad <= 5 || (digits.len() >= 5 && pad == digits.len()),
            key@ == prefix + Seq::new((pad - digits.len()) as nat, |i: int| 48u8),
        decreases 5 - pad,
    {
        key.push(48u8);
        pad = pad + 1;
        assert(key@ =~= prefix + Seq::new((pad - digits.len()) as nat, |i: int| 48u8));
    }
    let ghost padded = key@;
    let mut i: usize = 0;
    while i < digits.len()
        invariant
            i <= digits@.len(),
            key@ == padded + digits@.take(i as int),
        decreases digits@.len() - i,
    {
        key.push(digits[i]);
        i = i + 1;
        assert(key@ =~= padded + digits@.take(i as int));
    }
    proof {
        assert(digits@.take(i as int) =~= digits@);
        if digits@.len() < 5 {
            assert(key@ =~= entry_key(index as nat));
        } else {
            assert(Seq::new((pad - digits.len()) as nat, |i: int| 48u8) =~= Seq::<u8>::empty());
            assert(key@ =~= entry_key(index as nat));
        }
    }
    key
}

/// Encode `entry_count` string-table entries, named `entry-00000` onward,
/// into a bit-packed update payload.
pub fn string_table_bits(entry_count: usize) -> (r: Vec<u8>)
    requires
        entries_bits(entry_count as nat).len() <= usize::MAX,
    ensures
        stream_bits(r@).take(entries_bits(entry_count as nat).len() as int) == entries_bits(entry_count as nat),
        r@.len() == bytes_for_bits(entries_bits(entry_count as nat).len()),
        forall|i: int| entries_bits(entry_count as nat).len() <= i < 8 * r@.len() ==> !#[trigger] stream_bits(r@)[i],
{
    let mut writer = BitWriter::new();
    let mut index: usize = 0;
    while index < entry_count
        invariant
            index <= entry_count,
            writer.wf(),
            writer.spec_bits() == entries_bits(index as nat),
            entries_bits(entry_count as nat).len() <= usize::MAX,
        decreases entry_count - index,
    {
        proof {
            lemma_entries_bits_grow((index + 1) as nat, entry_count as nat);
            assert(entries_bits((index + 1) as nat) == entries_bits(index as nat) + entry_bits(index as nat));
        }
        let mut key = entry_key_bytes(index as u64);
        key.push(0u8);
        writer.push_bool(true);
        writer.push_bool(true);
        writer.push_bool(false);
        writer.push_bytes(key.as_slice());
        writer.push_bool(false);
        proof {
            assert(writer.spec_bits() =~= entries_bits(index as nat) + entry_bits(index as nat));
        }
        index = index + 1;
    }
    writer.finish()
}

/// `code` written `n` times in a row.
pub open spec fn repeat_bits(code: Seq<bool>, n: nat) -> Seq<bool>
    decreases n,
{
    if n == 0 {
        Seq::empty()
    } else {
        repeat_bits(code, (n - 1) as nat) + code
    }
}

/// `n` copies of `code` take `n` times its length.
proof fn lemma_repeat_len(code: Seq<bool>, n: nat)
    ensures
        repeat_bits(code, n).len() == n * code.len(),
    decreases n,
{
    if n > 0 {
        lemma_repeat_len(code, (n - 1) as nat);
        assert((n - 1) * code.len() + code.len() == n * code.len()) by (nonlinear_arith);
    } else {
        assert(n * code.len() == 0) by (nonlinear_arith)
            requires
                n == 0,
        ;
    }
}

/// The field changes of one synthetic entity: `field_count` field paths,
/// each the `plus_one` operation that moves to the next field, the
/// `finish` operation, and then one boolean per field, set for every third
/// field from the first.
pub open spec fn bool_fields_bits(plus_one: Seq<bool>, finish: Seq<bool>, field_count: nat) -> Seq<bool> {
    repeat_bits(plus_one, field_count) + finish + Seq::new(field_count, |i: int| i % 3 == 0)
}

/// One entity create: the next index, the create flags, class 0 in
/// `class_bits` bits, serial number 0 in 17 bits, a zero varint, and its
/// field changes.
pub open spec fn create_bits(class_bits: nat, plus_one: Seq<bool>, finish: Seq<bool>, field_count: nat) -> Seq<bool> {
    ubitvar_bits(0) + value_bits(2, 2) + value_bits(0, class_bits) + value_bits(0, 17) + stream_bits(
        uvarint_bytes(0),
    ) + bool_fields_bits(plus_one, finish, field_count)
}

/// One entity update: the next index, the update flags and its field
/// changes.
pub open spec fn update_bits(plus_one: Seq<bool>, finish: Seq<bool>, field_count: nat) -> Seq<bool> {
    ubitvar_bits(0) + value_bits(0, 2) + bool_fields_bits(plus_one, finish, field_count)
}

/// The bytes of `bits` as a bit writer leaves them: the bits in stream
/// order, then clear bits up to the byte boundary.
pub open spec fn packed(r: Seq<u8>, bits: Seq<bool>) -> bool {
    &&& stream_bits(r).take(bits.len() as int) == bits
    &&& r.len() == bytes_for_bits(bits.len())
    &&& forall|i: int| bits.len() <= i < 8 * r.len() ==> !#[trigger] stream_bits(r)[i]
}

/// Index step 0 as a `ubitvar` is six clear bits, and a zero varint is
/// one clear byte.
proof fn lemma_zero_codes()
    ensures
        ubitvar_bits(0) == value_bits(0, 6),
        stream_bits(uvarint_bytes(0)) == value_bits(0, 8),
{
    assert(uvarint_bytes(0) == seq![0u8]);
    assert forall|k: int| 0 <= k < 8 implies #[trigger] stream_bits(seq![0u8])[k] == value_bits(0, 8)[k] by {
        vstd::arithmetic::power2::lemma_pow2_pos((k % 8) as nat);
        vstd::arithmetic::power2::lemma_pow2_pos(k as nat);
        assert(seq![0u8][k / 8] == 0u8);
    }
    assert(stream_bits(seq![0u8]) =~= value_bits(0, 8));
    assert forall|k: int| 0 <= k < 6 implies #[trigger] ubitvar_bits(0)[k] == value_bits(0, 6)[k] by {}
    assert(ubitvar_bits(0) =~= value_bits(0, 6));
}

/// Append the field changes of one synthetic entity.
fn push_bool_fields(writer: &mut BitWriter, plus_one: &[bool], finish: &[bool], field_count: usize)
    requires
        old(writer).wf(),
        old(writer).spec_bits().len() + bool_fields_bits(plus_one@, finish@, field_count as nat).len()
            <= usize::MAX,
    ensures
        final(writer).wf(),
        final(writer).spec_bits() == old(writer).spec_bits() + bool_fields_bits(
            plus_one@,
            finish@,
            field_count as nat,
        ),
{
    let ghost start = writer.spec_bits();
    let ghost total = start.len() + bool_fields_bits(plus_one@, finish@, field_count as nat).len();
    let mut n: usize = 0;
    while n < field_count
        invariant
            writer.wf(),
            n <= field_count,
            writer.spec_bits() == start + repeat_bits(plus_one@, n as nat),
            total <= usize::MAX,
            total == start.len() + bool_fields_bits(plus_one@, finish@, field_count as nat).len(),
        decreases field_count - n,
    {
        proof {
            lemma_repeat_len(plus_one@, (n + 1) as nat);
            lemma_repeat_len(plus_one@, field_count as nat);
            assert((n + 1) * plus_one@.len() <= field_count * plus_one@.len()) by (nonlinear_arith)
                requires
                    n + 1 <= field_count,
            ;
        }
        let ghost before = writer.spec_bits();
        let mut k: usize = 0;
        while k < plus_one.len()
            invariant
                writer.wf(),
                k <= plus_one@.len(),
                writer.spec_bits() == before + plus_one@.take(k as int),
                before.len() + plus_one@.len() <= usize::MAX,
            decreases plus_one@.len() - k,
        {
            writer.push_bool(plus_one[k]);
            k = k + 1;
            assert(writer.spec_bits() =~= before + plus_one@.take(k as int));
        }
        assert(plus_one@.take(k as int) =~= plus_one@);
        n = n + 1;
        assert(writer.spec_bits() =~= start + repeat_bits(plus_one@, n as nat));
    }
    let ghost mid = writer.spec_bits();
    let mut k: usize = 0;
    while k < finish.len()
        invariant
            writer.wf(),
            k <= finish@.len(),
            writer.spec_bits() == mid + finish@.take(k as int),
            mid.len() + finish@.len() + field_count <= usize::MAX,
        decreases finish@.len() - k,
    {
        writer.push_bool(finish[k]);
        k = k + 1;
        assert(writer.spec_bits() =~= mid + finish@.take(k as int));
    }
    assert(finish@.take(k as int) =~= finish@);
    let ghost flags_at = writer.spec_bits();
    let mut index: usize = 0;
    while index < field_count
        invariant
            writer.wf(),
            index <= field_count,
            writer.spec_bits() == flags_at + Seq::new(index as nat, |i: int| i % 3 == 0),
            flags_at.len() + field_count <= usize::MAX,
        decreases field_count - index,
    {
        writer.push_bool(index % 3 == 0);
        index = index + 1;
        assert(writer.spec_bits() =~= flags_at + Seq::new(index as nat, |i: int| i % 3 == 0));
    }
    assert(writer.spec_bits() =~= start + bool_fields_bits(plus_one@, finish@, field_count as nat));
}

/// Encode `count` entity creates at consecutive indices from 0, each of
/// class 0 and setting `field_count` boolean fields, with the given
/// field-path operation codes and class-id width.
pub fn packet_entity_creates(
    count: usize,
    field_count: usize,
    class_bits: usize,
    plus_one: &[bool],
    finish: &[bool],
) -> (r: Vec<u8>)
    requires
        class_bits <= 64,
        repeat_bits(create_bits(class_bits as nat, plus_one@, finish@, field_count as nat), count as nat).len()
            <= usize::MAX,
    ensures
        packed(r@, repeat_bits(create_bits(class_bits as nat, plus_one@, finish@, field_count as nat), count as nat)),
{
    let ghost one = create_bits(class_bits as nat, plus_one@, finish@, field_count as nat);
    let mut writer = BitWriter::new();
    let mut i: usize = 0;
    proof {
        lemma_repeat_len(one, count as nat);
        assert(writer.spec_bits() =~= repeat_bits(one, 0));
    }
    while i < count
        invariant
            writer.wf(),
            i <= count,
            class_bits <= 64,
            one == create_bits(class_bits as nat, plus_one@, finish@, field_count as nat),
            writer.spec_bits() == repeat_bits(one, i as nat),
            count * one.len() <= usize::MAX,
        decreases count - i,
    {
        proof {
            lemma_repeat_len(one, i as nat);
            assert((i + 1) * one.len() <= count * one.len()) by (nonlinear_arith)
                requires
                    i + 1 <= count,
            ;
            assert(i * one.len() + one.len() == (i + 1) * one.len()) by (nonlinear_arith);
            lemma_zero_codes();
        }
        let ghost before = writer.spec_bits();
        writer.push_bits(0, 6);
        writer.push_bits(2, 2);
        writer.push_bits(0, class_bits);
        writer.push_bits(0, 17);
        writer.push_bits(0, 8);
        push_bool_fields(&mut writer, plus_one, finish, field_count);
        i = i + 1;
        assert(writer.spec_bits() =~= before + one);
    }
    writer.finish()
}

/// Encode `count` entity updates at consecutive indices from 0, each
/// rewriting `field_count` boolean fields, with the given field-path
/// operation codes.
pub fn packet_entity_updates(count: usize, field_count: usize, plus_one: &[bool], finish: &[bool]) -> (r: Vec<u8>)
    requires
        repeat_bits(update_bits(plus_one@, finish@, field_count as nat), count as nat).len() <= usize::MAX,
    ensures
        packed(r@, repeat_bits(update_bits(plus_one@, finish@, field_count as nat), count as nat)),
{
    let ghost one = update_bits(plus_one@, finish@, field_count as nat);
    let mut writer = BitWriter::new();
    let mut i: usize = 0;
    proof {
        lemma_repeat_len(one, count as nat);
        assert(writer.spec_bits() =~= repeat_bits(one, 0));
    }
    while i < count
        invariant
            writer.wf(),
            i <= count,
            one == update_bits(plus_one@, finish@, field_count as nat),
            writer.spec_bits() == repeat_bits(one, i as nat),
            count * one.len() <= usize::MAX,
        decreases count - i,
    {
        proof {
            lemma_repeat_len(one, i as nat);
            assert((i + 1) * one.len() <= count * one.len()) by (nonlinear_arith)
                requires
                    i + 1 <= count,
            ;
            assert(i * one.len() + one.len() == (i + 1) * one.len()) by (nonlinear_arith);
            lemma_zero_codes();
        }
        let ghost before = writer.spec_bits();
        writer.push_bits(0, 6);
        writer.push_bits(0, 2);
        push_bool_fields(&mut writer, plus_one, finish, field_count);
        i = i + 1;
        assert(writer.spec_bits() =~= before + one);
    }
    writer.finish()
}

} // verus!
