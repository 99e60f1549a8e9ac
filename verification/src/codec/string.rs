//! String columns: a mode byte, the validity, then either the Arrow layout
//! itself (mode 0: the offsets, `width` bytes each, then the string bytes) or
//! a dictionary (mode 1: the distinct strings in order of first appearance,
//! then one index per row), whichever is shorter. Null rows store the empty
//! string.
use super::slice_from;
use super::validity::{self, spec_read_validity, spec_validity, validity_flags, Validity, ValidityView};
use super::ColumnType;
use crate::error::Error;
use crate::le::{read_le, write_le};
use crate::math::{le_bytes, le_value, lemma_le_bytes_len, lemma_le_round, lemma_pow2_facts};
use vstd::arithmetic::power2::pow2;
use vstd::prelude::*;

verus! {

/// The strings a column stores: each valid row's bytes, and the empty string
/// for every null row.
pub open spec fn stored(values: Seq<Seq<u8>>, valid: Seq<bool>) -> Seq<Seq<u8>> {
    Seq::new(values.len(), |i: int| if valid[i] { values[i] } else { Seq::<u8>::empty() })
}

/// The bytes of a list of vectors.
pub open spec fn contents(values: Seq<Vec<u8>>) -> Seq<Seq<u8>> {
    values.map_values(|value: Vec<u8>| value@)
}

/// Total length of the strings.
pub open spec fn total_length(values: Seq<Seq<u8>>) -> nat
    decreases values.len(),
{
    if values.len() == 0 {
        0
    } else {
        total_length(values.drop_last()) + values.last().len()
    }
}

/// The strings one after another.
pub open spec fn joined(values: Seq<Seq<u8>>) -> Seq<u8>
    decreases values.len(),
{
    if values.len() == 0 {
        Seq::empty()
    } else {
        joined(values.drop_last()) + values.last()
    }
}

/// The Arrow offsets of the strings: where each starts in `joined`, then
/// where the last ends, each in `width` little-endian bytes.
pub open spec fn offsets_bytes(values: Seq<Seq<u8>>, width: nat) -> Seq<u8>
    decreases values.len(),
{
    if values.len() == 0 {
        le_bytes(0, width)
    } else {
        offsets_bytes(values.drop_last(), width) + le_bytes(total_length(values), width)
    }
}

/// Mode 0: the offsets, then the string bytes.
pub open spec fn spec_raw_strings(values: Seq<Seq<u8>>, width: nat) -> Seq<u8> {
    offsets_bytes(values, width) + joined(values)
}

/// The distinct strings in order of first appearance.
pub open spec fn dictionary_entries(values: Seq<Seq<u8>>) -> Seq<Seq<u8>>
    decreases values.len(),
{
    if values.len() == 0 {
        Seq::empty()
    } else {
        let entries = dictionary_entries(values.drop_last());
        if entries.contains(values.last()) {
            entries
        } else {
            entries.push(values.last())
        }
    }
}

/// Bytes per dictionary index.
pub open spec fn index_width(entries: nat) -> nat {
    if entries <= 256 {
        1
    } else if entries <= 65_536 {
        2
    } else {
        4
    }
}

/// Each entry's length as a little-endian `u64`, then its bytes.
pub open spec fn entries_bytes(entries: Seq<Seq<u8>>) -> Seq<u8>
    decreases entries.len(),
{
    if entries.len() == 0 {
        Seq::empty()
    } else {
        entries_bytes(entries.drop_last()) + le_bytes(entries.last().len(), 8) + entries.last()
    }
}

/// Each row's index into `entries`, `width` little-endian bytes each.
pub open spec fn indices_bytes(values: Seq<Seq<u8>>, entries: Seq<Seq<u8>>, width: nat) -> Seq<u8>
    decreases values.len(),
{
    if values.len() == 0 {
        Seq::empty()
    } else {
        indices_bytes(values.drop_last(), entries, width) + le_bytes(
            entries.index_of(values.last()) as nat,
            width,
        )
    }
}

/// Every string's length fits the `u64` a dictionary entry records it in.
pub open spec fn lengths_fit(values: Seq<Seq<u8>>) -> bool {
    forall|i: int| 0 <= i < values.len() ==> #[trigger] values[i].len() <= u64::MAX
}

/// What mode 1 needs to read back: the entry count fits its `u32`, every
/// entry's length its `u64`, the index bytes a `usize`, and with 4-byte
/// offsets the string bytes an `i32`.
pub open spec fn dictionary_fits(values: Seq<Seq<u8>>, width: nat) -> bool {
    &&& dictionary_entries(values).len() <= u32::MAX
    &&& lengths_fit(values)
    &&& values.len() * index_width(dictionary_entries(values).len()) <= usize::MAX
    &&& width == 4 ==> total_length(values) <= i32::MAX
}

/// Mode 1: the entry count as a little-endian `u32`, the entries, the index
/// width, then the indices.
pub open spec fn spec_dictionary(values: Seq<Seq<u8>>) -> Seq<u8> {
    let entries = dictionary_entries(values);
    let width = index_width(entries.len());
    le_bytes(entries.len(), 4) + entries_bytes(entries) + seq![width as u8] + indices_bytes(
        values,
        entries,
        width,
    )
}

/// The chunk of a string column whose offsets take `width` bytes.
pub open spec fn spec_encode_strings(width: nat, values: Seq<Seq<u8>>, valid: Seq<bool>) -> Seq<
    u8,
> {
    let strings = stored(values, valid);
    let raw = spec_raw_strings(strings, width);
    let dictionary = spec_dictionary(strings);
    if dictionary.len() < raw.len() {
        seq![1u8] + spec_validity(valid) + dictionary
    } else {
        seq![0u8] + spec_validity(valid) + raw
    }
}

// --- lemmas on the layouts ---------------------------------------------------------

pub(crate) proof fn lemma_take_last<A>(values: Seq<A>, i: int)
    requires
        0 <= i < values.len(),
    ensures
        values.take(i + 1).drop_last() == values.take(i),
        values.take(i + 1).last() == values[i],
{
    assert(values.take(i + 1).drop_last() =~= values.take(i));
}

pub(crate) proof fn lemma_joined_len(values: Seq<Seq<u8>>)
    ensures
        joined(values).len() == total_length(values),
    decreases values.len(),
{
    if values.len() > 0 {
        lemma_joined_len(values.drop_last());
    }
}

proof fn lemma_offsets_len(values: Seq<Seq<u8>>, width: nat)
    ensures
        offsets_bytes(values, width).len() == width * (values.len() + 1),
    decreases values.len(),
{
    lemma_le_bytes_len(0, width);
    if values.len() > 0 {
        let n = values.len();
        lemma_offsets_len(values.drop_last(), width);
        lemma_le_bytes_len(total_length(values), width);
        assert(width * (n + 1) == width * ((n - 1) + 1) + width) by (nonlinear_arith)
            requires
                n > 0,
        ;
    } else {
        assert(width * (values.len() + 1) == width) by (nonlinear_arith)
            requires
                values.len() == 0,
        ;
    }
}

/// The dictionary holds every string once.
proof fn lemma_entries_distinct(values: Seq<Seq<u8>>)
    ensures
        dictionary_entries(values).no_duplicates(),
        dictionary_entries(values).len() <= values.len(),
        forall|i: int| 0 <= i < values.len() ==> dictionary_entries(values).contains(
            #[trigger] values[i],
        ),
    decreases values.len(),
{
    if values.len() > 0 {
        let rest = values.drop_last();
        lemma_entries_distinct(rest);
        let entries = dictionary_entries(rest);
        assert forall|i: int| 0 <= i < values.len() implies dictionary_entries(values).contains(
            #[trigger] values[i],
        ) by {
            if i < rest.len() {
                assert(rest[i] == values[i]);
                let k = choose|k: int| 0 <= k < entries.len() && entries[k] == rest[i];
                assert(dictionary_entries(values)[k] == values[i]);
            } else if !entries.contains(values.last()) {
                assert(dictionary_entries(values)[entries.len() as int] == values[i]);
            }
        }
    }
}

/// The dictionary of a prefix is a prefix of the dictionary.
proof fn lemma_entries_prefix(values: Seq<Seq<u8>>, i: int)
    requires
        0 <= i <= values.len(),
    ensures
        dictionary_entries(values.take(i)).len() <= dictionary_entries(values).len(),
        dictionary_entries(values).take(dictionary_entries(values.take(i)).len() as int)
            == dictionary_entries(values.take(i)),
    decreases values.len() - i,
{
    if i < values.len() {
        lemma_entries_prefix(values, i + 1);
        lemma_take_last(values, i);
        let small = dictionary_entries(values.take(i));
        let big = dictionary_entries(values.take(i + 1));
        assert(big.take(small.len() as int) =~= small);
        let all = dictionary_entries(values);
        assert(all.take(small.len() as int) =~= big.take(small.len() as int));
    } else {
        assert(values.take(i) =~= values);
        assert(dictionary_entries(values).take(dictionary_entries(values).len() as int)
            =~= dictionary_entries(values));
    }
}

proof fn lemma_index_of_distinct(entries: Seq<Seq<u8>>, k: int)
    requires
        entries.no_duplicates(),
        0 <= k < entries.len(),
    ensures
        entries.index_of(entries[k]) == k,
{
    let j = entries.index_of(entries[k]);
    assert(0 <= j < entries.len() && entries[j] == entries[k]);
}

// --- executable encoding -----------------------------------------------------------

fn append(out: &mut Vec<u8>, data: &[u8])
    ensures
        final(out)@ == old(out)@ + data@,
{
    let mut k: usize = 0;
    while k < data.len()
        invariant
            k <= data.len(),
            out@ == old(out)@ + data@.take(k as int),
        decreases data.len() - k,
    {
        out.push(data[k]);
        k = k + 1;
        proof {
            assert(out@ =~= old(out)@ + data@.take(k as int));
        }
    }
    proof {
        assert(data@.take(k as int) =~= data@);
    }
}

/// Whether two byte strings are equal.
fn same_bytes(a: &[u8], b: &[u8]) -> (same: bool)
    ensures
        same == (a@ == b@),
{
    if a.len() != b.len() {
        return false;
    }
    let mut k: usize = 0;
    while k < a.len()
        invariant
            a.len() == b.len(),
            k <= a.len(),
            forall|j: int| 0 <= j < k ==> a@[j] == b@[j],
        decreases a.len() - k,
    {
        if a[k] != b[k] {
            return false;
        }
        k = k + 1;
    }
    proof {
        assert(a@ =~= b@);
    }
    true
}

/// The bytes row `i` stores.
fn stored_at<'a>(values: &'a [Vec<u8>], valid: &[bool], i: usize) -> (value: &'a [u8])
    requires
        values.len() == valid.len(),
        i < values.len(),
    ensures
        value@ == stored(contents(values@), valid@)[i as int],
{
    if valid[i] {
        values[i].as_slice()
    } else {
        let empty: &[u8] = &[];
        proof {
            assert(empty@ =~= Seq::<u8>::empty());
        }
        empty
    }
}

/// Mode 0 of the stored strings.
fn raw(values: &[Vec<u8>], valid: &[bool], width: usize) -> (out: Vec<u8>)
    requires
        values.len() == valid.len(),
        width <= 8,
        total_length(stored(contents(values@), valid@)) <= u64::MAX,
    ensures
        out@ == spec_raw_strings(stored(contents(values@), valid@), width as nat),
{
    let ghost strings = stored(contents(values@), valid@);
    let mut out: Vec<u8> = Vec::new();
    write_le(&mut out, 0, width);
    let mut size: u64 = 0;
    let mut i: usize = 0;
    proof {
        assert(strings.take(0) =~= Seq::<Seq<u8>>::empty());
        assert(out@ =~= offsets_bytes(strings.take(0), width as nat));
    }
    while i < values.len()
        invariant
            values.len() == valid.len(),
            strings == stored(contents(values@), valid@),
            strings.len() == values.len(),
            width <= 8,
            total_length(strings) <= u64::MAX,
            i <= values.len(),
            size == total_length(strings.take(i as int)),
            out@ == offsets_bytes(strings.take(i as int), width as nat),
        decreases values.len() - i,
    {
        let value = stored_at(values, valid, i);
        proof {
            lemma_take_last(strings, i as int);
            lemma_total_prefix(strings, i + 1);
        }
        size = size + value.len() as u64;
        write_le(&mut out, size, width);
        i = i + 1;
    }
    let ghost offsets = out@;
    let mut j: usize = 0;
    proof {
        assert(strings.take(i as int) =~= strings);
        assert(out@ =~= offsets + joined(strings.take(0)));
    }
    while j < values.len()
        invariant
            values.len() == valid.len(),
            strings == stored(contents(values@), valid@),
            strings.len() == values.len(),
            j <= values.len(),
            out@ == offsets + joined(strings.take(j as int)),
        decreases values.len() - j,
    {
        let value = stored_at(values, valid, j);
        proof {
            lemma_take_last(strings, j as int);
        }
        append(&mut out, value);
        j = j + 1;
        proof {
            assert(out@ =~= offsets + joined(strings.take(j as int)));
        }
    }
    proof {
        assert(strings.take(j as int) =~= strings);
    }
    out
}

/// The total length of a prefix is at most the total length.
pub(crate) proof fn lemma_total_prefix(values: Seq<Seq<u8>>, i: int)
    requires
        0 <= i <= values.len(),
    ensures
        total_length(values.take(i)) <= total_length(values),
    decreases values.len() - i,
{
    if i < values.len() {
        lemma_total_prefix(values, i + 1);
        lemma_take_last(values, i);
    } else {
        assert(values.take(i) =~= values);
    }
}

/// Mode 1 of the stored strings.
fn dictionary(values: &[Vec<u8>], valid: &[bool]) -> (out: Vec<u8>)
    requires
        values.len() == valid.len(),
    ensures
        out@ == spec_dictionary(stored(contents(values@), valid@)),
{
    let ghost strings = stored(contents(values@), valid@);
    let ghost all = dictionary_entries(strings);
    let n = values.len();
    proof {
        lemma_entries_distinct(strings);
        assert(strings.take(0) =~= Seq::<Seq<u8>>::empty());
    }
    let mut firsts: Vec<usize> = Vec::new();
    let mut indices: Vec<usize> = Vec::new();
    let mut i: usize = 0;
    while i < n
        invariant
            n == values.len(),
            values.len() == valid.len(),
            strings == stored(contents(values@), valid@),
            strings.len() == n,
            all == dictionary_entries(strings),
            all.no_duplicates(),
            i <= n,
            firsts@.len() == dictionary_entries(strings.take(i as int)).len(),
            forall|k: int|
                0 <= k < firsts@.len() ==> #[trigger] firsts@[k] < n && strings[firsts@[k] as int]
                    == dictionary_entries(strings.take(i as int))[k],
            indices@.len() == i,
            forall|j: int| 0 <= j < i ==> #[trigger] indices@[j] == all.index_of(strings[j]),
        decreases n - i,
    {
        let value = stored_at(values, valid, i);
        let ghost before = dictionary_entries(strings.take(i as int));
        proof {
            lemma_take_last(strings, i as int);
            lemma_entries_prefix(strings, i as int);
            lemma_entries_prefix(strings, i + 1);
        }
        let mut k: usize = 0;
        let mut found = false;
        while k < firsts.len()
            invariant_except_break
                !found,
            invariant
                n == values.len(),
                values.len() == valid.len(),
                strings == stored(contents(values@), valid@),
                firsts@.len() == before.len(),
                forall|m: int|
                    0 <= m < firsts@.len() ==> #[trigger] firsts@[m] < n && strings[firsts@[m] as int]
                        == before[m],
                value@ == strings[i as int],
                k <= firsts.len(),
                forall|m: int| 0 <= m < k ==> #[trigger] before[m] != strings[i as int],
            ensures
                found ==> k < firsts.len() && before[k as int] == strings[i as int],
                !found ==> forall|m: int| 0 <= m < before.len() ==> #[trigger] before[m]
                    != strings[i as int],
            decreases firsts.len() - k,
        {
            let entry = stored_at(values, valid, firsts[k]);
            if same_bytes(entry, value) {
                found = true;
                break;
            }
            k = k + 1;
        }
        if found {
            proof {
                assert(before[k as int] == strings[i as int]);
                assert(before.contains(strings[i as int]));
                assert(all[k as int] == before[k as int]);
                lemma_index_of_distinct(all, k as int);
            }
            indices.push(k);
        } else {
            proof {
                assert(!before.contains(strings[i as int]));
                let after = dictionary_entries(strings.take(i + 1));
                assert(after == before.push(strings[i as int]));
                assert(all[before.len() as int] == after[before.len() as int]);
                lemma_index_of_distinct(all, before.len() as int);
            }
            indices.push(firsts.len());
            firsts.push(i);
        }
        i = i + 1;
        proof {
            assert forall|m: int| 0 <= m < firsts@.len() implies #[trigger] firsts@[m] < n
                && strings[firsts@[m] as int] == dictionary_entries(strings.take(i as int))[m] by {
            }
        }
    }
    proof {
        assert(strings.take(n as int) =~= strings);
    }
    let count = firsts.len();
    let width: usize = if count <= 256 {
        1
    } else if count <= 65_536 {
        2
    } else {
        4
    };
    let mut out: Vec<u8> = Vec::new();
    write_le(&mut out, count as u64, 4);
    let ghost head = out@;
    let mut k: usize = 0;
    proof {
        assert(all.take(0) =~= Seq::<Seq<u8>>::empty());
        assert(out@ =~= head + entries_bytes(all.take(0)));
    }
    while k < count
        invariant
            n == values.len(),
            values.len() == valid.len(),
            strings == stored(contents(values@), valid@),
            all == dictionary_entries(strings),
            count == firsts@.len(),
            count == all.len(),
            forall|m: int|
                0 <= m < firsts@.len() ==> #[trigger] firsts@[m] < n && strings[firsts@[m] as int]
                    == all[m],
            k <= count,
            out@ == head + entries_bytes(all.take(k as int)),
        decreases count - k,
    {
        let entry = stored_at(values, valid, firsts[k]);
        proof {
            lemma_take_last(all, k as int);
        }
        write_le(&mut out, entry.len() as u64, 8);
        append(&mut out, entry);
        k = k + 1;
        proof {
            assert(out@ =~= head + entries_bytes(all.take(k as int)));
        }
    }
    proof {
        assert(all.take(k as int) =~= all);
    }
    out.push(width as u8);
    let ghost body = out@;
    let mut j: usize = 0;
    proof {
        assert(out@ =~= body + indices_bytes(strings.take(0), all, width as nat));
    }
    while j < n
        invariant
            n == values.len(),
            strings.len() == n,
            indices@.len() == n,
            forall|m: int| 0 <= m < n ==> #[trigger] indices@[m] == all.index_of(strings[m]),
            width <= 8,
            j <= n,
            out@ == body + indices_bytes(strings.take(j as int), all, width as nat),
        decreases n - j,
    {
        proof {
            lemma_take_last(strings, j as int);
        }
        write_le(&mut out, indices[j] as u64, width);
        j = j + 1;
        proof {
            assert(out@ =~= body + indices_bytes(strings.take(j as int), all, width as nat));
        }
    }
    proof {
        assert(strings.take(j as int) =~= strings);
        assert(out@ =~= spec_dictionary(strings));
    }
    out
}

/// Encodes a string column: `values[i]` holds row `i`'s UTF-8 bytes and
/// `valid[i]` says whether the row holds a string. Columns of other types
/// give `None`.
pub fn encode(column: ColumnType, values: &[Vec<u8>], valid: &[bool]) -> (chunk: Option<Vec<u8>>)
    requires
        values.len() == valid.len(),
        total_length(stored(contents(values@), valid@)) <= u64::MAX,
    ensures
        match column.spec_offset_width() {
            Some(width) => chunk matches Some(bytes) && bytes@ == spec_encode_strings(
                width as nat,
                contents(values@),
                valid@,
            ),
            None => chunk is None,
        },
{
    let width = match column.offset_width() {
        Some(width) => width,
        None => {
            return None;
        },
    };
    let raw = raw(values, valid, width);
    let dictionary = dictionary(values, valid);
    let mut out: Vec<u8> = Vec::new();
    if dictionary.len() < raw.len() {
        out.push(1);
        validity::encode(valid, &mut out);
        append(&mut out, dictionary.as_slice());
    } else {
        out.push(0);
        validity::encode(valid, &mut out);
        append(&mut out, raw.as_slice());
    }
    Some(out)
}

/// Reading mode 0 for `count` rows: the offsets and the string bytes.
pub open spec fn spec_split_raw(bytes: Seq<u8>, count: nat, width: nat) -> Result<
    (Seq<u8>, Seq<u8>),
    Error,
> {
    let end = (count + 1) * width;
    if end > bytes.len() {
        Err(Error::InvalidMetadata("invalid string offsets"))
    } else if le_value(bytes.subrange(end - width, end as int)) != bytes.len() - end {
        Err(Error::InvalidMetadata("invalid string data length"))
    } else {
        Ok((bytes.subrange(0, end as int), bytes.subrange(end as int, bytes.len() as int)))
    }
}

/// Splits mode 0 bytes of `count` rows into the offsets and the string bytes.
fn split_raw(bytes: &[u8], count: usize, width: usize) -> (result: Result<
    (Vec<u8>, Vec<u8>),
    Error,
>)
    requires
        width == 4 || width == 8,
    ensures
        match result {
            Ok((offsets, data)) => spec_split_raw(bytes@, count as nat, width as nat) == Ok::<
                (Seq<u8>, Seq<u8>),
                Error,
            >((offsets@, data@)),
            Err(e) => spec_split_raw(bytes@, count as nat, width as nat) == Err::<
                (Seq<u8>, Seq<u8>),
                Error,
            >(e),
        },
{
    let end = match count.checked_add(1) {
        Some(rows) => match rows.checked_mul(width) {
            Some(end) => end,
            None => {
                proof {
                    assert(rows * width > usize::MAX);
                    assert((count + 1) * width > bytes.len());
                }
                return Err(Error::InvalidMetadata("invalid string offsets"));
            },
        },
        None => {
            proof {
                assert(count + 1 > usize::MAX);
                assert((count + 1) * width >= count + 1) by (nonlinear_arith)
                    requires
                        width >= 1,
                ;
                assert(bytes.len() <= usize::MAX);
            }
            return Err(Error::InvalidMetadata("invalid string offsets"));
        },
    };
    if end > bytes.len() {
        return Err(Error::InvalidMetadata("invalid string offsets"));
    }
    proof {
        assert(end >= width) by (nonlinear_arith)
            requires
                end == (count + 1) * width,
        ;
    }
    let last = read_le(bytes, end - width, width);
    if last != (bytes.len() - end) as u64 {
        return Err(Error::InvalidMetadata("invalid string data length"));
    }
    let offsets = slice_to(bytes, end);
    let data = slice_from(bytes, end);
    Ok((offsets, data))
}

/// The first `end` bytes of `bytes`.
fn slice_to(bytes: &[u8], end: usize) -> (head: Vec<u8>)
    requires
        end <= bytes.len(),
    ensures
        head@ == bytes@.subrange(0, end as int),
{
    let mut head: Vec<u8> = Vec::new();
    let mut k: usize = 0;
    while k < end
        invariant
            end <= bytes.len(),
            k <= end,
            head@ == bytes@.subrange(0, k as int),
        decreases end - k,
    {
        head.push(bytes[k]);
        k = k + 1;
        proof {
            assert(head@ =~= bytes@.subrange(0, k as int));
        }
    }
    head
}

/// Where dictionary entry `k` starts (that is, where the entry before it
/// ends), reading from byte 4; `None` when an entry runs past the end.
pub open spec fn entry_end(bytes: Seq<u8>, k: nat) -> Option<int>
    decreases k,
{
    if k == 0 {
        Some(4)
    } else {
        match entry_end(bytes, (k - 1) as nat) {
            None => None,
            Some(at) => if at + 8 > bytes.len() {
                None
            } else if at + 8 + le_value(bytes.subrange(at, at + 8)) > bytes.len() {
                None
            } else {
                Some(at + 8 + le_value(bytes.subrange(at, at + 8)))
            },
        }
    }
}

/// The bytes of dictionary entry `k`.
pub open spec fn entry_bytes(bytes: Seq<u8>, k: nat) -> Seq<u8> {
    bytes.subrange(entry_end(bytes, k)->Some_0 + 8, entry_end(bytes, k + 1)->Some_0)
}

/// The index of row `j`.
pub open spec fn index_at(bytes: Seq<u8>, start: int, width: nat, j: int) -> nat {
    le_value(bytes.subrange(start + width * j, start + width * j + width))
}

/// The strings of `count` rows named by the indices at `start`.
pub open spec fn expanded(bytes: Seq<u8>, count: nat, start: int, width: nat) -> Seq<Seq<u8>> {
    Seq::new(count, |j: int| entry_bytes(bytes, index_at(bytes, start, width, j)))
}

/// Reading mode 1 for `count` rows: the offsets and the string bytes of the
/// rows the indices name.
pub open spec fn spec_expand_dictionary(bytes: Seq<u8>, count: nat, width: nat) -> Result<
    (Seq<u8>, Seq<u8>),
    Error,
> {
    if bytes.len() < 4 {
        Err(Error::UnexpectedEndOfInput)
    } else {
        let entries = le_value(bytes.subrange(0, 4));
        match entry_end(bytes, entries) {
            None => Err(Error::UnexpectedEndOfInput),
            Some(at) => if at >= bytes.len() {
                Err(Error::UnexpectedEndOfInput)
            } else {
                let index_size = bytes[at] as nat;
                let start = at + 1;
                if count * index_size > usize::MAX {
                    Err(Error::IntegerOverflow)
                } else if !(index_size == 1 || index_size == 2 || index_size == 4) || bytes.len()
                    - start != count * index_size {
                    Err(Error::InvalidMetadata("invalid dictionary indices"))
                } else if exists|j: int|
                    0 <= j < count && #[trigger] index_at(bytes, start, index_size, j) >= entries {
                    Err(Error::InvalidMetadata("invalid dictionary index"))
                } else {
                    let strings = expanded(bytes, count, start, index_size);
                    if width == 4 && total_length(strings) > i32::MAX {
                        Err(Error::IntegerOverflow)
                    } else {
                        Ok((offsets_bytes(strings, width), joined(strings)))
                    }
                }
            },
        }
    }
}

proof fn lemma_entry_end_prefix(bytes: Seq<u8>, k: nat, m: nat)
    requires
        m <= k,
        entry_end(bytes, k) is Some,
    ensures
        entry_end(bytes, m) is Some,
        4 <= entry_end(bytes, m)->Some_0 <= entry_end(bytes, k)->Some_0 <= bytes.len() || (k == 0
            && m == 0),
    decreases k,
{
    if k > 0 && m < k {
        lemma_entry_end_prefix(bytes, (k - 1) as nat, m);
    }
    if k > 0 {
        lemma_entry_end_prefix(bytes, (k - 1) as nat, (k - 1) as nat);
    }
}

/// Expands mode 1 bytes of `count` rows into offsets and string bytes.
fn expand_dictionary(bytes: &[u8], count: usize, width: usize) -> (result: Result<
    (Vec<u8>, Vec<u8>),
    Error,
>)
    requires
        width == 4 || width == 8,
    ensures
        match result {
            Ok((offsets, data)) => spec_expand_dictionary(bytes@, count as nat, width as nat)
                == Ok::<(Seq<u8>, Seq<u8>), Error>((offsets@, data@)),
            Err(e) => spec_expand_dictionary(bytes@, count as nat, width as nat) == Err::<
                (Seq<u8>, Seq<u8>),
                Error,
            >(e),
        },
{
    let ghost b = bytes@;
    if bytes.len() < 4 {
        return Err(Error::UnexpectedEndOfInput);
    }
    proof {
        lemma_pow2_facts();
        crate::math::lemma_le_value_bound(b.subrange(0, 4));
    }
    let entries = read_le(bytes, 0, 4) as usize;
    let mut starts: Vec<usize> = Vec::new();
    let mut ends: Vec<usize> = Vec::new();
    let mut at: usize = 4;
    let mut k: usize = 0;
    while k < entries
        invariant
            b == bytes@,
            bytes.len() >= 4,
            entries == le_value(b.subrange(0, 4)),
            k <= entries,
            entry_end(b, k as nat) == Some(at as int),
            at <= bytes.len(),
            starts@.len() == k,
            ends@.len() == k,
            forall|m: int|
                0 <= m < k ==> #[trigger] starts@[m] == entry_end(b, m as nat)->Some_0 + 8
                    && ends@[m] == entry_end(b, (m + 1) as nat)->Some_0 && starts@[m] <= ends@[m]
                    <= bytes.len(),
        decreases entries - k,
    {
        if bytes.len() - at < 8 {
            proof {
                lemma_entries_missing(b, (k + 1) as nat, entries as nat);
            }
            return Err(Error::UnexpectedEndOfInput);
        }
        let length = read_le(bytes, at, 8);
        if length > (bytes.len() - at - 8) as u64 {
            proof {
                lemma_entries_missing(b, (k + 1) as nat, entries as nat);
            }
            return Err(Error::UnexpectedEndOfInput);
        }
        let end = at + 8 + length as usize;
        starts.push(at + 8);
        ends.push(end);
        at = end;
        k = k + 1;
    }
    if at >= bytes.len() {
        return Err(Error::UnexpectedEndOfInput);
    }
    let index_size = bytes[at] as usize;
    let start = at + 1;
    let index_bytes = match count.checked_mul(index_size) {
        Some(size) => size,
        None => {
            return Err(Error::IntegerOverflow);
        },
    };
    if !(index_size == 1 || index_size == 2 || index_size == 4) || bytes.len() - start
        != index_bytes {
        return Err(Error::InvalidMetadata("invalid dictionary indices"));
    }
    let ghost strings = expanded(b, count as nat, start as int, index_size as nat);
    let mut values: Vec<u8> = Vec::new();
    let mut offsets: Vec<u8> = Vec::new();
    write_le(&mut offsets, 0, width);
    let mut j: usize = 0;
    proof {
        assert(strings.take(0) =~= Seq::<Seq<u8>>::empty());
    }
    while j < count
        invariant
            b == bytes@,
            width == 4 || width == 8,
            entries == le_value(b.subrange(0, 4)),
            entry_end(b, entries as nat) == Some(at as int),
            starts@.len() == entries,
            ends@.len() == entries,
            forall|m: int|
                0 <= m < entries ==> #[trigger] starts@[m] == entry_end(b, m as nat)->Some_0 + 8
                    && ends@[m] == entry_end(b, (m + 1) as nat)->Some_0 && starts@[m] <= ends@[m]
                    <= bytes.len(),
            start == at + 1,
            b.len() >= 4,
            at < bytes.len(),
            index_size == b[at as int],
            count * index_size <= usize::MAX,
            index_size == 1 || index_size == 2 || index_size == 4,
            bytes.len() - start == count * index_size,
            strings == expanded(b, count as nat, start as int, index_size as nat),
            j <= count,
            forall|m: int| 0 <= m < j ==> #[trigger] index_at(b, start as int, index_size as nat, m)
                < entries,
            values@ == joined(strings.take(j as int)),
            offsets@ == offsets_bytes(strings.take(j as int), width as nat),
        decreases count - j,
    {
        proof {
            assert(index_size * j + index_size <= count * index_size) by (nonlinear_arith)
                requires
                    j < count,
            ;
            assert(index_size * j == j * index_size) by (nonlinear_arith);
            lemma_pow2_facts();
            crate::math::lemma_le_value_bound(
                b.subrange(start + index_size * j, start + index_size * j + index_size),
            );
            crate::math::lemma_pow2_le(8 * index_size as nat, 32);
        }
        let index = read_le(bytes, start + index_size * j, index_size) as usize;
        if index >= entries {
            proof {
                assert(index_at(b, start as int, index_size as nat, j as int) >= entries);
            }
            return Err(Error::InvalidMetadata("invalid dictionary index"));
        }
        let from = starts[index];
        let to = ends[index];
        proof {
            lemma_take_last(strings, j as int);
            assert(strings[j as int] == b.subrange(from as int, to as int));
        }
        let mut p: usize = from;
        let ghost before = values@;
        while p < to
            invariant
                from <= p <= to,
                to <= bytes.len(),
                values@ == before + bytes@.subrange(from as int, p as int),
            decreases to - p,
        {
            values.push(bytes[p]);
            p = p + 1;
            proof {
                assert(values@ =~= before + bytes@.subrange(from as int, p as int));
            }
        }
        proof {
            lemma_joined_len(strings.take(j + 1));
        }
        write_le(&mut offsets, values.len() as u64, width);
        j = j + 1;
    }
    proof {
        assert(strings.take(j as int) =~= strings);
        lemma_joined_len(strings);
    }
    if width == 4 && values.len() > 2147483647 {
        return Err(Error::IntegerOverflow);
    }
    Ok((offsets, values))
}

/// When entry `k` cannot be read, neither can the first `entries`.
proof fn lemma_entries_missing(bytes: Seq<u8>, k: nat, entries: nat)
    requires
        k <= entries,
        entry_end(bytes, k) is None,
    ensures
        entry_end(bytes, entries) is None,
    decreases entries - k,
{
    if k < entries {
        lemma_entries_missing(bytes, k + 1, entries);
    }
}

/// What decoding a string chunk of `length` rows gives: the validity, the
/// Arrow offsets and the string bytes.
pub open spec fn spec_decode_strings(column: ColumnType, length: nat, bytes: Seq<u8>) -> Result<
    (ValidityView, Seq<u8>, Seq<u8>),
    Error,
> {
    match column.spec_offset_width() {
        None => Err(Error::InvalidMetadata("string codec used for another type")),
        Some(width) => if bytes.len() == 0 {
            Err(Error::UnexpectedEndOfInput)
        } else {
            match spec_read_validity(bytes, 1, length) {
                Err(e) => Err(e),
                Ok((validity, at)) => {
                    let rest = bytes.subrange(at, bytes.len() as int);
                    if bytes[0] == 0 {
                        match spec_split_raw(rest, length, width as nat) {
                            Ok((offsets, data)) => Ok((validity, offsets, data)),
                            Err(e) => Err(e),
                        }
                    } else if bytes[0] == 1 {
                        match spec_expand_dictionary(rest, length, width as nat) {
                            Ok((offsets, data)) => Ok((validity, offsets, data)),
                            Err(e) => Err(e),
                        }
                    } else {
                        Err(Error::InvalidMetadata("invalid string encoding"))
                    }
                },
            }
        },
    }
}

/// Decodes a string chunk of `length` rows of type `column` into its
/// validity, its Arrow offsets and its string bytes.
pub fn decode(column: ColumnType, length: usize, bytes: &[u8]) -> (result: Result<
    (Validity, Vec<u8>, Vec<u8>),
    Error,
>)
    ensures
        match result {
            Ok((validity, offsets, data)) => spec_decode_strings(column, length as nat, bytes@)
                == Ok::<(ValidityView, Seq<u8>, Seq<u8>), Error>((validity@, offsets@, data@)),
            Err(e) => spec_decode_strings(column, length as nat, bytes@) == Err::<
                (ValidityView, Seq<u8>, Seq<u8>),
                Error,
            >(e),
        },
{
    let width = match column.offset_width() {
        Some(width) => width,
        None => {
            return Err(Error::InvalidMetadata("string codec used for another type"));
        },
    };
    if bytes.len() == 0 {
        return Err(Error::UnexpectedEndOfInput);
    }
    let mode = bytes[0];
    let mut at: usize = 1;
    let nulls = validity::decode(bytes, &mut at, length)?;
    let rest = slice_from(bytes, at);
    if mode == 0 {
        let (offsets, data) = split_raw(rest.as_slice(), length, width)?;
        Ok((nulls, offsets, data))
    } else if mode == 1 {
        let (offsets, data) = expand_dictionary(rest.as_slice(), length, width)?;
        Ok((nulls, offsets, data))
    } else {
        Err(Error::InvalidMetadata("invalid string encoding"))
    }
}

// --- round trips ------------------------------------------------------------------

proof fn lemma_offsets_last(values: Seq<Seq<u8>>, width: nat)
    ensures
        offsets_bytes(values, width).subrange(
            offsets_bytes(values, width).len() - width,
            offsets_bytes(values, width).len() as int,
        ) == le_bytes(total_length(values), width),
{
    lemma_offsets_len(values, width);
    lemma_le_bytes_len(total_length(values), width);
    let all = offsets_bytes(values, width);
    if values.len() == 0 {
        assert(all.subrange(0, width as int) =~= all);
    } else {
        let front = offsets_bytes(values.drop_last(), width);
        lemma_offsets_len(values.drop_last(), width);
        assert(all.subrange(front.len() as int, all.len() as int) =~= le_bytes(
            total_length(values),
            width,
        ));
    }
}

/// Mode 0 bytes read back as the offsets and bytes of the strings.
pub proof fn lemma_raw_round_trip(values: Seq<Seq<u8>>, width: nat)
    requires
        width == 4 || width == 8,
        total_length(values) < pow2(8 * width),
    ensures
        spec_split_raw(spec_raw_strings(values, width), values.len(), width) == Ok::<
            (Seq<u8>, Seq<u8>),
            Error,
        >((offsets_bytes(values, width), joined(values))),
{
    let offsets = offsets_bytes(values, width);
    let bytes = spec_raw_strings(values, width);
    let n = values.len();
    lemma_offsets_len(values, width);
    lemma_joined_len(values);
    assert((n + 1) * width == width * (n + 1)) by (nonlinear_arith);
    let end = (n + 1) * width;
    lemma_offsets_last(values, width);
    assert(bytes.subrange(end - width, end as int) =~= offsets.subrange(
        offsets.len() - width,
        offsets.len() as int,
    ));
    lemma_le_round(total_length(values), width);
    assert(bytes.subrange(0, end as int) =~= offsets);
    assert(bytes.subrange(end as int, bytes.len() as int) =~= joined(values));
}

proof fn lemma_entries_bytes_prefix(entries: Seq<Seq<u8>>, k: int)
    requires
        0 <= k <= entries.len(),
    ensures
        entries_bytes(entries.take(k)).len() <= entries_bytes(entries).len(),
        entries_bytes(entries).subrange(0, entries_bytes(entries.take(k)).len() as int)
            == entries_bytes(entries.take(k)),
    decreases entries.len() - k,
{
    if k < entries.len() {
        lemma_entries_bytes_prefix(entries, k + 1);
        lemma_take_last(entries, k);
        let small = entries_bytes(entries.take(k));
        let big = entries_bytes(entries.take(k + 1));
        assert(big.subrange(0, small.len() as int) =~= small);
        assert(entries_bytes(entries).subrange(0, small.len() as int) =~= big.subrange(
            0,
            small.len() as int,
        ));
    } else {
        assert(entries.take(k) =~= entries);
        assert(entries_bytes(entries).subrange(0, entries_bytes(entries).len() as int)
            =~= entries_bytes(entries));
    }
}

proof fn lemma_entries_from_values(values: Seq<Seq<u8>>)
    ensures
        forall|k: int|
            0 <= k < dictionary_entries(values).len() ==> values.contains(
                #[trigger] dictionary_entries(values)[k],
            ),
    decreases values.len(),
{
    if values.len() > 0 {
        let rest = values.drop_last();
        lemma_entries_from_values(rest);
        let entries = dictionary_entries(rest);
        assert forall|k: int| 0 <= k < dictionary_entries(values).len() implies values.contains(
            #[trigger] dictionary_entries(values)[k],
        ) by {
            if k < entries.len() {
                let i = choose|i: int| 0 <= i < rest.len() && rest[i] == entries[k];
                assert(values[i] == rest[i]);
            } else {
                assert(values[values.len() - 1] == values.last());
            }
        }
    }
}

proof fn lemma_indices_layout(values: Seq<Seq<u8>>, entries: Seq<Seq<u8>>, width: nat, j: int)
    requires
        width >= 1,
        0 <= j < values.len(),
    ensures
        indices_bytes(values, entries, width).len() == width * values.len(),
        indices_bytes(values, entries, width).subrange(width * j, width * j + width) == le_bytes(
            entries.index_of(values[j]) as nat,
            width,
        ),
    decreases values.len(),
{
    lemma_indices_len(values, entries, width);
    let rest = values.drop_last();
    lemma_indices_len(rest, entries, width);
    lemma_le_bytes_len(entries.index_of(values.last()) as nat, width);
    assert(width * values.len() == width * rest.len() + width) by (nonlinear_arith)
        requires
            values.len() == rest.len() + 1,
    ;
    if j < rest.len() {
        lemma_indices_layout(rest, entries, width, j);
        assert(width * j + width <= width * rest.len()) by (nonlinear_arith)
            requires
                j < rest.len(),
                0 <= j,
        ;
        assert(indices_bytes(values, entries, width).subrange(width * j, width * j + width)
            =~= indices_bytes(rest, entries, width).subrange(width * j, width * j + width));
    } else {
        assert(indices_bytes(values, entries, width).subrange(width * j, width * j + width)
            =~= le_bytes(entries.index_of(values.last()) as nat, width));
    }
}

proof fn lemma_indices_len(values: Seq<Seq<u8>>, entries: Seq<Seq<u8>>, width: nat)
    ensures
        indices_bytes(values, entries, width).len() == width * values.len(),
    decreases values.len(),
{
    if values.len() > 0 {
        lemma_indices_len(values.drop_last(), entries, width);
        lemma_le_bytes_len(entries.index_of(values.last()) as nat, width);
        assert(width * values.len() == width * (values.len() - 1) + width) by (nonlinear_arith)
            requires
                values.len() >= 1,
        ;
    }
}

proof fn lemma_entry_step(values: Seq<Seq<u8>>, k: nat)
    requires
        k < dictionary_entries(values).len(),
        lengths_fit(values),
        entry_end(spec_dictionary(values), k) == Some(
            4 + entries_bytes(dictionary_entries(values).take(k as int)).len() as int,
        ),
    ensures
        entry_end(spec_dictionary(values), k + 1) == Some(
            4 + entries_bytes(dictionary_entries(values).take(k as int + 1)).len() as int,
        ),
        entry_bytes(spec_dictionary(values), k) == dictionary_entries(values)[k as int],
{
    let entries = dictionary_entries(values);
    let bytes = spec_dictionary(values);
    lemma_le_bytes_len(entries.len(), 4);
    let all = entries_bytes(entries);
    assert(bytes.subrange(4, 4 + all.len() as int) =~= all);
    let at: int = 4 + entries_bytes(entries.take(k as int)).len() as int;
    lemma_take_last(entries, k as int);
    lemma_entries_bytes_prefix(entries, k as int + 1);
    let before = entries_bytes(entries.take(k as int));
    let after = entries_bytes(entries.take(k as int + 1));
    let entry = entries[k as int];
    lemma_le_bytes_len(entry.len(), 8);
    assert(after == before + le_bytes(entry.len(), 8) + entry);
    let b0 = before.len() as int;
    assert(all.subrange(0, after.len() as int) == after);
    assert(bytes.subrange(at, at + 8) =~= le_bytes(entry.len(), 8)) by {
        assert(after.subrange(b0, b0 + 8) =~= le_bytes(entry.len(), 8));
        assert(all.subrange(b0, b0 + 8) =~= after.subrange(b0, b0 + 8));
        assert(bytes.subrange(at, at + 8) =~= all.subrange(b0, b0 + 8));
    }
    assert(bytes.subrange(at + 8, at + 8 + entry.len()) =~= entry) by {
        assert(after.subrange(b0 + 8, b0 + 8 + entry.len()) =~= entry);
        assert(all.subrange(b0 + 8, b0 + 8 + entry.len()) =~= after.subrange(
            b0 + 8,
            b0 + 8 + entry.len(),
        ));
        assert(bytes.subrange(at + 8, at + 8 + entry.len()) =~= all.subrange(
            b0 + 8,
            b0 + 8 + entry.len(),
        ));
    }
    assert(le_value(bytes.subrange(at, at + 8)) == entry.len()) by {
        lemma_entries_from_values(values);
        let i = choose|i: int| 0 <= i < values.len() && values[i] == entry;
        assert(values[i].len() <= u64::MAX);
        lemma_pow2_facts();
        lemma_le_round(entry.len(), 8);
    }
    assert(at + 8 + entry.len() <= bytes.len());
}

/// Reading the entries of a dictionary's bytes finds each entry where it was
/// written.
proof fn lemma_entry_ends(values: Seq<Seq<u8>>, k: nat)
    requires
        k <= dictionary_entries(values).len(),
        lengths_fit(values),
    ensures
        entry_end(spec_dictionary(values), k) == Some(
            4 + entries_bytes(dictionary_entries(values).take(k as int)).len() as int,
        ),
        k < dictionary_entries(values).len() ==> entry_bytes(spec_dictionary(values), k)
            == dictionary_entries(values)[k as int],
    decreases k,
{
    let entries = dictionary_entries(values);
    if k == 0 {
        assert(entries.take(0) =~= Seq::<Seq<u8>>::empty());
    } else {
        lemma_entry_ends(values, (k - 1) as nat);
        lemma_entry_step(values, (k - 1) as nat);
    }
    if k < entries.len() {
        lemma_entry_step(values, k);
    }
}

/// Mode 1 bytes read back as the offsets and bytes of the strings.
pub proof fn lemma_dictionary_round_trip(values: Seq<Seq<u8>>, width: nat)
    requires
        width == 4 || width == 8,
        dictionary_fits(values, width),
    ensures
        spec_expand_dictionary(spec_dictionary(values), values.len(), width) == Ok::<
            (Seq<u8>, Seq<u8>),
            Error,
        >((offsets_bytes(values, width), joined(values))),
{
    let entries = dictionary_entries(values);
    let n = values.len();
    let iw = index_width(entries.len());
    let bytes = spec_dictionary(values);
    lemma_entries_distinct(values);
    lemma_pow2_facts();
    lemma_le_round(entries.len(), 4);
    lemma_le_bytes_len(entries.len(), 4);
    assert(bytes.subrange(0, 4) =~= le_bytes(entries.len(), 4));
    lemma_entry_ends(values, entries.len());
    assert(entries.take(entries.len() as int) =~= entries);
    let at: int = 4 + entries_bytes(entries).len() as int;
    lemma_indices_len(values, entries, iw);
    assert(bytes[at] == iw as u8);
    let start: int = at + 1;
    assert(bytes.len() - start == iw * n);
    assert(n * iw == iw * n) by (nonlinear_arith);
    let indices = indices_bytes(values, entries, iw);
    assert(bytes.subrange(start, bytes.len() as int) =~= indices);
    assert forall|j: int| 0 <= j < n implies #[trigger] index_at(bytes, start, iw, j)
        == entries.index_of(values[j]) && entries.index_of(values[j]) < entries.len() by {
        lemma_indices_layout(values, entries, iw, j);
        assert(iw * j + iw <= iw * n) by (nonlinear_arith)
            requires
                j < n,
                0 <= j,
        ;
        assert(bytes.subrange(start + iw * j, start + iw * j + iw) =~= indices.subrange(
            iw * j,
            iw * j + iw,
        ));
        assert(entries.contains(values[j]));
        let idx = entries.index_of(values[j]);
        assert(0 <= idx < entries.len());
        assert(entries.len() <= u32::MAX);
        if iw == 1 {
            vstd::arithmetic::power2::lemma2_to64();
        } else if iw == 2 {
            vstd::arithmetic::power2::lemma2_to64();
        }
        assert(idx < pow2(8 * iw));
        lemma_le_round(idx as nat, iw);
    }
    let strings = expanded(bytes, n, start, iw);
    assert forall|j: int| 0 <= j < n implies #[trigger] strings[j] == values[j] by {
        let idx = entries.index_of(values[j]);
        assert(index_at(bytes, start, iw, j) == idx);
        lemma_entry_ends(values, idx as nat);
    }
    assert(strings =~= values);
}

/// Decoding an encoded string column gives every row's validity back and the
/// Arrow offsets and bytes of the stored strings: each valid row's string,
/// and the empty string for each null row.
pub proof fn lemma_strings_round_trip(column: ColumnType, values: Seq<Seq<u8>>, valid: Seq<bool>)
    requires
        column.spec_offset_width() is Some,
        values.len() == valid.len(),
        ({
            let strings = stored(values, valid);
            let width = column.spec_offset_width()->Some_0 as nat;
            if spec_dictionary(strings).len() < spec_raw_strings(strings, width).len() {
                dictionary_fits(strings, width)
            } else {
                total_length(strings) < pow2(8 * width)
            }
        }),
    ensures
        spec_decode_strings(
            column,
            values.len(),
            spec_encode_strings(column.spec_offset_width()->Some_0 as nat, values, valid),
        ) matches Ok((validity, offsets, data)) && validity_flags(validity, values.len()) == valid
            && offsets == offsets_bytes(
            stored(values, valid),
            column.spec_offset_width()->Some_0 as nat,
        ) && data == joined(stored(values, valid)),
{
    let width = column.spec_offset_width()->Some_0 as nat;
    let strings = stored(values, valid);
    let raw = spec_raw_strings(strings, width);
    let dictionary = spec_dictionary(strings);
    let bytes = spec_encode_strings(width, values, valid);
    lemma_pow2_facts();
    if dictionary.len() < raw.len() {
        assert(bytes =~= seq![1u8] + spec_validity(valid) + dictionary);
        validity::lemma_validity_round_trip(seq![1u8], valid, dictionary);
        let start = 1 + spec_validity(valid).len();
        assert(bytes.subrange(start as int, bytes.len() as int) =~= dictionary);
        lemma_dictionary_round_trip(strings, width);
    } else {
        assert(bytes =~= seq![0u8] + spec_validity(valid) + raw);
        validity::lemma_validity_round_trip(seq![0u8], valid, raw);
        let start = 1 + spec_validity(valid).len();
        assert(bytes.subrange(start as int, bytes.len() as int) =~= raw);
        lemma_raw_round_trip(strings, width);
    }
}

/// Both modes read back to the same offsets and string bytes: those of the
/// strings themselves.
pub proof fn lemma_modes_agree(values: Seq<Seq<u8>>, width: nat)
    requires
        width == 4 || width == 8,
        dictionary_fits(values, width),
        total_length(values) < pow2(8 * width),
    ensures
        spec_expand_dictionary(spec_dictionary(values), values.len(), width) == spec_split_raw(
            spec_raw_strings(values, width),
            values.len(),
            width,
        ),
        spec_split_raw(spec_raw_strings(values, width), values.len(), width) == Ok::<
            (Seq<u8>, Seq<u8>),
            Error,
        >((offsets_bytes(values, width), joined(values))),
{
    lemma_dictionary_round_trip(values, width);
    lemma_raw_round_trip(values, width);
}

/// For either offset width, a string chunk takes the shorter of the two
/// layouts: its mode byte is 1 exactly when the dictionary is shorter than the
/// raw layout, and the chunk is the mode byte, the validity and that layout.
pub proof fn lemma_string_layout_is_shorter(width: nat, values: Seq<Seq<u8>>, valid: Seq<bool>)
    ensures
        ({
            let strings = stored(values, valid);
            let raw = spec_raw_strings(strings, width);
            let dictionary = spec_dictionary(strings);
            let chunk = spec_encode_strings(width, values, valid);
            let header = 1 + spec_validity(valid).len();
            &&& chunk[0] == (if dictionary.len() < raw.len() {
                1u8
            } else {
                0u8
            })
            &&& chunk.len() == header + (if dictionary.len() < raw.len() {
                dictionary.len()
            } else {
                raw.len()
            })
            &&& chunk.len() <= header + raw.len()
            &&& chunk.len() <= header + dictionary.len()
            &&& chunk.subrange(header as int, chunk.len() as int) == (if dictionary.len()
                < raw.len() {
                dictionary
            } else {
                raw
            })
        }),
{
    let strings = stored(values, valid);
    let raw = spec_raw_strings(strings, width);
    let dictionary = spec_dictionary(strings);
    let chunk = spec_encode_strings(width, values, valid);
    let header = 1 + spec_validity(valid).len();
    if dictionary.len() < raw.len() {
        assert(chunk.subrange(header as int, chunk.len() as int) =~= dictionary);
    } else {
        assert(chunk.subrange(header as int, chunk.len() as int) =~= raw);
    }
}

} // verus!
