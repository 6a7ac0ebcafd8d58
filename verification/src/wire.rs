use vstd::prelude::*;

use crate::error::CoapError;

verus! {

/// The option table as a mathematical value: entries in strictly ascending
/// key order, each holding the key's values in insertion order.
pub type TableView = Seq<(u64, Seq<Seq<u8>>)>;

/// The option records of a message in wire order: one absolute option
/// number and one raw value per record.
pub type RecordList = Seq<(u64, Seq<u8>)>;

/// The outcome of reading the option section: the records in wire order and
/// the payload, or the error that aborts the decode.
pub type RecordsResult = Result<(RecordList, Seq<u8>), CoapError>;

/// The payload marker byte that separates the option section from the payload.
pub const PAYLOAD_MARKER: u8 = 255;

/// The largest value the two-byte extension tier can carry.
pub const EXT_VALUE_MAX: u64 = 65804;

/// The ceiling on the total encoded size of a message, in bytes.
pub const MAX_MESSAGE_SIZE: usize = 1280;

/// The nibble under which a delta or length value is transmitted: the value
/// itself up to 12, the one-byte extension marker 13 up to 268, and the
/// two-byte extension marker 14 beyond.
pub open spec fn ext_nibble(v: int) -> u8 {
    if v <= 12 {
        v as u8
    } else if v <= 268 {
        13u8
    } else {
        14u8
    }
}

/// The extension bytes that follow the option header byte for a delta or
/// length value: none up to 12, one byte holding `v - 13` up to 268, and two
/// big-endian bytes holding `v - 269` beyond.
pub open spec fn ext_bytes(v: int) -> Seq<u8> {
    if v <= 12 {
        Seq::empty()
    } else if v <= 268 {
        seq![(v - 13) as u8]
    } else {
        seq![(((v - 269) % 65536) / 256) as u8, ((v - 269) % 256) as u8]
    }
}

/// How many extension bytes a delta or length value takes.
pub open spec fn ext_len(v: int) -> int {
    if v <= 12 {
        0
    } else if v <= 268 {
        1
    } else {
        2
    }
}

/// Reads a delta or length value back from its nibble and the bytes that
/// follow: the value and how many bytes were consumed, or nothing when the
/// buffer ends before the extension bytes.
pub open spec fn ext_decode(nibble: int, rest: Seq<u8>) -> Option<(int, int)> {
    if nibble < 13 {
        Some((nibble, 0))
    } else if nibble == 13 {
        if rest.len() >= 1 {
            Some((rest[0] + 13, 1))
        } else {
            None
        }
    } else {
        if rest.len() >= 2 {
            Some(((rest[0] as int) * 256 + (rest[1] as int) + 269, 2))
        } else {
            None
        }
    }
}

/// The option header byte: delta nibble high, length nibble low.
pub open spec fn record_header_byte(delta: int, len: int) -> u8 {
    ((ext_nibble(delta) as int) * 16 + (ext_nibble(len) as int)) as u8
}

/// The wire bytes of one option record: the header byte, the delta and
/// length extension bytes, then the raw value.
pub open spec fn record_bytes(delta: int, value: Seq<u8>) -> Seq<u8> {
    seq![record_header_byte(delta, value.len() as int)] + ext_bytes(delta) + ext_bytes(
        value.len() as int,
    ) + value
}

/// The wire bytes of all values of one key: the first value carries the
/// key's delta, every further value a delta of zero.
pub open spec fn encode_values(first_delta: int, values: Seq<Seq<u8>>) -> Seq<u8>
    decreases values.len(),
{
    if values.len() == 0 {
        Seq::empty()
    } else {
        record_bytes(first_delta, values[0]) + encode_values(0, values.skip(1))
    }
}

/// The wire bytes of the whole option section, walking the table in order
/// with `prev` as the number the last emitted record reached. A key with no
/// values emits nothing and leaves `prev` unchanged.
pub open spec fn encode_table(entries: TableView, prev: u64) -> Seq<u8>
    decreases entries.len(),
{
    if entries.len() == 0 {
        Seq::empty()
    } else {
        encode_values(entries[0].0 - prev, entries[0].1) + encode_table(
            entries.skip(1),
            if entries[0].1.len() == 0 {
                prev
            } else {
                entries[0].0
            },
        )
    }
}

/// Whether every delta the encoder would emit fits the two-byte extension
/// tier.
pub open spec fn deltas_ok(entries: TableView, prev: u64) -> bool
    decreases entries.len(),
{
    if entries.len() == 0 {
        true
    } else {
        (entries[0].1.len() == 0 || entries[0].0 - prev <= EXT_VALUE_MAX) && deltas_ok(
            entries.skip(1),
            if entries[0].1.len() == 0 {
                prev
            } else {
                entries[0].0
            },
        )
    }
}

/// Whether every delta the encoder would emit is non-negative: each key is
/// at least the number the previous record reached.
pub open spec fn deltas_nonneg(entries: TableView, prev: u64) -> bool
    decreases entries.len(),
{
    if entries.len() == 0 {
        true
    } else {
        entries[0].0 >= prev && deltas_nonneg(
            entries.skip(1),
            if entries[0].1.len() == 0 {
                prev
            } else {
                entries[0].0
            },
        )
    }
}

/// Reads the option section of a buffer that starts right after the token:
/// option records until the buffer ends or the payload marker is met, then
/// the payload. `number` is the running absolute option number.
pub open spec fn decode_records(buf: Seq<u8>, number: u64) -> RecordsResult
    decreases buf.len(),
{
    if buf.len() == 0 {
        Ok((Seq::empty(), Seq::empty()))
    } else if buf[0] == PAYLOAD_MARKER {
        Ok((Seq::empty(), buf.skip(1)))
    } else {
        let dn = (buf[0] as int) / 16;
        let ln = (buf[0] as int) % 16;
        if dn == 15 {
            Err(CoapError::InvalidOptionDelta)
        } else {
            match ext_decode(dn, buf.skip(1)) {
                None => Err(CoapError::InvalidOptionLength),
                Some((delta, dc)) => if ln == 15 {
                    Err(CoapError::InvalidOptionLength)
                } else {
                    match ext_decode(ln, buf.skip(1 + dc)) {
                        None => Err(CoapError::InvalidOptionLength),
                        Some((len, lc)) => {
                            let body = buf.skip(1 + dc + lc);
                            if body.len() < len {
                                Err(CoapError::InvalidOptionLength)
                            } else if number + delta > u64::MAX {
                                Err(CoapError::InvalidOptionDelta)
                            } else {
                                match decode_records(body.skip(len), (number + delta) as u64) {
                                    Err(e) => Err(e),
                                    Ok((recs, payload)) => Ok(
                                        (seq![((number + delta) as u64, body.take(len))] + recs, payload),
                                    ),
                                }
                            }
                        },
                    }
                },
            }
        }
    }
}

/// Where a key stands, or would stand, in a table: the first position whose
/// key is not below `k`.
pub open spec fn table_key_index(t: TableView, k: u64) -> int
    decreases t.len(),
{
    if t.len() == 0 {
        0
    } else if t[0].0 >= k {
        0
    } else {
        1 + table_key_index(t.skip(1), k)
    }
}

/// Whether the table's keys are strictly ascending.
pub open spec fn table_sorted(t: TableView) -> bool {
    forall|i: int, j: int| 0 <= i < j < t.len() ==> t[i].0 < t[j].0
}

/// Appends one value under a key: to the key's existing value list, or as a
/// fresh entry at the key's sorted position.
pub open spec fn table_add(t: TableView, k: u64, v: Seq<u8>) -> TableView {
    let i = table_key_index(t, k);
    if i < t.len() && t[i].0 == k {
        t.update(i, (k, t[i].1.push(v)))
    } else {
        t.insert(i, (k, seq![v]))
    }
}

/// Replaces a key's whole value list, inserting the key if it is absent.
pub open spec fn table_set(t: TableView, k: u64, vs: Seq<Seq<u8>>) -> TableView {
    let i = table_key_index(t, k);
    if i < t.len() && t[i].0 == k {
        t.update(i, (k, vs))
    } else {
        t.insert(i, (k, vs))
    }
}

/// Empties a key's value list without removing the key; a table without the
/// key is unchanged.
pub open spec fn table_clear(t: TableView, k: u64) -> TableView {
    let i = table_key_index(t, k);
    if i < t.len() && t[i].0 == k {
        t.update(i, (k, Seq::<Seq<u8>>::empty()))
    } else {
        t
    }
}

/// The value list of a key, or nothing when the key was never populated.
pub open spec fn table_get(t: TableView, k: u64) -> Option<Seq<Seq<u8>>> {
    let i = table_key_index(t, k);
    if i < t.len() && t[i].0 == k {
        Some(t[i].1)
    } else {
        None
    }
}

/// The table that collects a run of records, adding them in wire order.
pub open spec fn table_of(records: RecordList) -> TableView
    decreases records.len(),
{
    if records.len() == 0 {
        Seq::empty()
    } else {
        table_add(table_of(records.drop_last()), records.last().0, records.last().1)
    }
}

/// The records the encoder emits for a table, in wire order.
pub open spec fn records_of(entries: TableView) -> RecordList
    decreases entries.len(),
{
    if entries.len() == 0 {
        Seq::empty()
    } else {
        entries[0].1.map_values(|v: Seq<u8>| (entries[0].0, v)) + records_of(entries.skip(1))
    }
}

/// The position a key stands at, or would be inserted at, is within the
/// table; everything before it is below the key, and what stands at it, if
/// anything, is not.
pub proof fn lemma_table_key_index(t: TableView, k: u64)
    ensures
        0 <= table_key_index(t, k) <= t.len(),
        forall|j: int| 0 <= j < table_key_index(t, k) ==> (#[trigger] t[j]).0 < k,
        table_key_index(t, k) < t.len() ==> t[table_key_index(t, k)].0 >= k,
    decreases t.len(),
{
    if t.len() == 0 {
    } else if t[0].0 >= k {
    } else {
        lemma_table_key_index(t.skip(1), k);
        let i = table_key_index(t, k);
        assert forall|j: int| 0 <= j < i implies (#[trigger] t[j]).0 < k by {
            if j > 0 {
                assert(t.skip(1)[j - 1] == t[j]);
            }
        }
        if i < t.len() {
            assert(t.skip(1)[i - 1] == t[i]);
        }
    }
}

/// Any position with the properties of `table_key_index` is that index.
pub proof fn lemma_table_key_index_unique(t: TableView, k: u64, i: int)
    requires
        0 <= i <= t.len(),
        forall|j: int| 0 <= j < i ==> (#[trigger] t[j]).0 < k,
        i < t.len() ==> t[i].0 >= k,
    ensures
        table_key_index(t, k) == i,
{
    lemma_table_key_index(t, k);
    let s = table_key_index(t, k);
    if s < i {
        assert(t[s].0 < k);
    } else if i < s {
        assert(t[i].0 < k);
    }
}

/// Adding a value keeps the keys strictly ascending.
pub proof fn lemma_table_add_sorted(t: TableView, k: u64, v: Seq<u8>)
    requires
        table_sorted(t),
    ensures
        table_sorted(table_add(t, k, v)),
{
    lemma_table_key_index(t, k);
    let i = table_key_index(t, k);
    if i < t.len() && t[i].0 == k {
        let r = t.update(i, (k, t[i].1.push(v)));
        assert forall|a: int, b: int| 0 <= a < b < r.len() implies r[a].0 < r[b].0 by {
            assert(t[a].0 < t[b].0);
        }
    } else {
        let e = (k, seq![v]);
        let r = t.insert(i, e);
        t.insert_ensures(i, e);
        assert forall|a: int, b: int| 0 <= a < b < r.len() implies r[a].0 < r[b].0 by {
            if a < i && b < i {
                assert(r[a] == t[a] && r[b] == t[b]);
            } else if a < i && b == i {
                assert(r[a] == t[a]);
            } else if a < i && b > i {
                assert(r[a] == t[a] && r[b] == t[b - 1]);
                assert(t[a].0 < k);
                if b - 1 == i {
                    assert(t[i].0 >= k && t[i].0 != k);
                } else {
                    assert(t[i].0 >= k && t[i].0 != k);
                    assert(t[i].0 < t[b - 1].0);
                }
            } else if a == i && b > i {
                assert(r[b] == t[b - 1]);
                assert(t[i].0 >= k && t[i].0 != k);
                if b - 1 > i {
                    assert(t[i].0 < t[b - 1].0);
                }
            } else {
                assert(r[a] == t[a - 1] && r[b] == t[b - 1]);
                assert(t[a - 1].0 < t[b - 1].0);
            }
        }
    }
}

/// Replacing a key's values keeps the keys strictly ascending.
pub proof fn lemma_table_set_sorted(t: TableView, k: u64, vs: Seq<Seq<u8>>)
    requires
        table_sorted(t),
    ensures
        table_sorted(table_set(t, k, vs)),
{
    lemma_table_key_index(t, k);
    let i = table_key_index(t, k);
    if i < t.len() && t[i].0 == k {
        let r = t.update(i, (k, vs));
        assert forall|a: int, b: int| 0 <= a < b < r.len() implies r[a].0 < r[b].0 by {
            assert(t[a].0 < t[b].0);
        }
    } else {
        let e = (k, vs);
        let r = t.insert(i, e);
        t.insert_ensures(i, e);
        assert forall|a: int, b: int| 0 <= a < b < r.len() implies r[a].0 < r[b].0 by {
            if a < i && b < i {
                assert(r[a] == t[a] && r[b] == t[b]);
            } else if a < i && b == i {
                assert(r[a] == t[a]);
            } else if a < i && b > i {
                assert(r[a] == t[a] && r[b] == t[b - 1]);
                assert(t[a].0 < k);
                assert(t[i].0 >= k && t[i].0 != k);
                if b - 1 > i {
                    assert(t[i].0 < t[b - 1].0);
                }
            } else if a == i && b > i {
                assert(r[b] == t[b - 1]);
                assert(t[i].0 >= k && t[i].0 != k);
                if b - 1 > i {
                    assert(t[i].0 < t[b - 1].0);
                }
            } else {
                assert(r[a] == t[a - 1] && r[b] == t[b - 1]);
                assert(t[a - 1].0 < t[b - 1].0);
            }
        }
    }
}

/// Clearing a key keeps the keys strictly ascending.
pub proof fn lemma_table_clear_sorted(t: TableView, k: u64)
    requires
        table_sorted(t),
    ensures
        table_sorted(table_clear(t, k)),
{
    lemma_table_key_index(t, k);
    let i = table_key_index(t, k);
    if i < t.len() && t[i].0 == k {
        let r = t.update(i, (k, Seq::<Seq<u8>>::empty()));
        assert forall|a: int, b: int| 0 <= a < b < r.len() implies r[a].0 < r[b].0 by {
            assert(t[a].0 < t[b].0);
        }
    }
}

/// The table collected from any run of records has strictly ascending keys.
pub proof fn lemma_table_of_sorted(records: RecordList)
    ensures
        table_sorted(table_of(records)),
    decreases records.len(),
{
    if records.len() == 0 {
    } else {
        lemma_table_of_sorted(records.drop_last());
        lemma_table_add_sorted(table_of(records.drop_last()), records.last().0, records.last().1);
    }
}

/// The nibble under which a delta or length value is transmitted.
pub(crate) fn ext_nibble_of(v: u64) -> (n: u8)
    ensures
        n == ext_nibble(v as int),
{
    if v <= 12 {
        v as u8
    } else if v <= 268 {
        13
    } else {
        14
    }
}

/// Appends the extension bytes of a delta or length value.
pub(crate) fn write_ext(out: &mut Vec<u8>, v: u64)
    requires
        v <= EXT_VALUE_MAX,
    ensures
        final(out)@ == old(out)@ + ext_bytes(v as int),
{
    if v <= 12 {
        proof {
            assert(out@ =~= old(out)@ + ext_bytes(v as int));
        }
    } else if v <= 268 {
        out.push((v - 13) as u8);
        proof {
            assert(out@ =~= old(out)@ + ext_bytes(v as int));
        }
    } else {
        let x = v - 269;
        proof {
            assert(x >> 8 == x / 256 && x & 255 == x % 256 && x / 256 < 256 && x % 256 < 256 && x
                % 65536 == x) by (bit_vector)
                requires
                    x <= 65535u64,
            ;
        }
        out.push((x >> 8) as u8);
        out.push((x & 255) as u8);
        proof {
            assert(out@ =~= old(out)@ + ext_bytes(v as int));
        }
    }
}

/// Reads a delta or length value from its nibble and the bytes at `idx`.
pub(crate) fn decode_ext(buf: &[u8], idx: usize, nibble: u8) -> (r: Result<(u64, usize), CoapError>)
    requires
        nibble < 15,
        idx <= buf@.len(),
    ensures
        match ext_decode(nibble as int, buf@.skip(idx as int)) {
            Some(vc) => r matches Ok(a) && a.0 as int == vc.0 && a.1 as int == vc.1 && a.0
                <= EXT_VALUE_MAX && a.1 <= 2 && idx + a.1 <= buf@.len(),
            None => r == Err::<(u64, usize), CoapError>(CoapError::InvalidOptionLength),
        },
{
    let s = Ghost(buf@.skip(idx as int));
    if nibble < 13 {
        Ok((nibble as u64, 0))
    } else if nibble == 13 {
        if buf.len() - idx >= 1 {
            proof {
                assert(s@[0] == buf@[idx as int]);
            }
            Ok((buf[idx] as u64 + 13, 1))
        } else {
            Err(CoapError::InvalidOptionLength)
        }
    } else {
        if buf.len() - idx >= 2 {
            proof {
                assert(s@[0] == buf@[idx as int] && s@[1] == buf@[idx as int + 1]);
            }
            Ok(((buf[idx] as u64) * 256 + (buf[idx + 1] as u64) + 269, 2))
        } else {
            Err(CoapError::InvalidOptionLength)
        }
    }
}

/// Copies `n` bytes starting at `start` into a fresh buffer.
pub(crate) fn read_bytes(buf: &[u8], start: usize, n: usize) -> (r: Vec<u8>)
    requires
        start + n <= buf@.len(),
    ensures
        r@ == buf@.subrange(start as int, start as int + n as int),
{
    let mut r: Vec<u8> = Vec::new();
    let mut i: usize = 0;
    let blen = buf.len();
    proof {
        assert(r@ =~= buf@.subrange(start as int, start as int));
    }
    while i < n
        invariant
            i <= n,
            start + n <= blen,
            blen == buf@.len(),
            r@ == buf@.subrange(start as int, start as int + i as int),
        decreases n - i,
    {
        r.push(buf[start + i]);
        proof {
            assert(buf@.subrange(start as int, start as int + i as int) + seq![
                buf@[start as int + i as int]
            ] =~= buf@.subrange(start as int, start as int + i as int + 1));
        }
        i = i + 1;
    }
    r
}

/// Appends a byte slice to a buffer.
pub(crate) fn push_bytes(out: &mut Vec<u8>, src: &[u8])
    ensures
        final(out)@ == old(out)@ + src@,
{
    let mut i: usize = 0;
    proof {
        assert(out@ =~= old(out)@ + src@.take(0));
    }
    while i < src.len()
        invariant
            i <= src@.len(),
            out@ == old(out)@ + src@.take(i as int),
        decreases src@.len() - i,
    {
        out.push(src[i]);
        proof {
            assert(old(out)@ + src@.take(i as int) + seq![src@[i as int]] =~= old(out)@
                + src@.take(i as int + 1));
        }
        i = i + 1;
    }
    proof {
        assert(src@.take(src@.len() as int) =~= src@);
    }
}

/// Boundary law of the three encoding tiers: for every value up to the
/// two-byte ceiling, the nibble is never the reserved 15, and reading the
/// nibble and its extension bytes back yields the value and consumes
/// exactly those bytes, whatever follows them.
pub proof fn lemma_ext_round_trip(v: int, tail: Seq<u8>)
    requires
        0 <= v <= EXT_VALUE_MAX,
    ensures
        ext_nibble(v) < 15,
        ext_bytes(v).len() == ext_len(v),
        ext_decode(ext_nibble(v) as int, ext_bytes(v) + tail) == Some((v, ext_len(v))),
{
    let s = ext_bytes(v) + tail;
    if v <= 12 {
    } else if v <= 268 {
        assert(s[0] == (v - 13) as u8);
    } else {
        let x = v - 269;
        assert(x % 65536 == x);
        vstd::arithmetic::div_mod::lemma_fundamental_div_mod(x, 256);
        assert(x / 256 <= 255) by (nonlinear_arith)
            requires
                0 <= x <= 65535,
        ;
        assert(s[0] == (x / 256) as u8 && s[1] == (x % 256) as u8);
        assert((s[0] as int) * 256 + (s[1] as int) + 269 == v);
    }
}

/// Reading one record the encoder wrote: the header byte and extensions
/// decode back to the same number and value, and decoding continues in the
/// remaining bytes with the number the record reached.
#[verifier::rlimit(60)]
pub proof fn lemma_decode_one_record(delta: int, value: Seq<u8>, rest: Seq<u8>, number: u64)
    requires
        0 <= delta <= EXT_VALUE_MAX,
        value.len() <= EXT_VALUE_MAX,
        number + delta <= u64::MAX,
    ensures
        decode_records(record_bytes(delta, value) + rest, number) == (match decode_records(
            rest,
            (number + delta) as u64,
        ) {
            Ok(rp) => Ok::<(RecordList, Seq<u8>), CoapError>(
                (seq![((number + delta) as u64, value)] + rp.0, rp.1),
            ),
            Err(e) => Err(e),
        }),
{
    let vlen = value.len() as int;
    let dn = ext_nibble(delta) as int;
    let ln = ext_nibble(vlen) as int;
    let hb = record_header_byte(delta, vlen);
    assert(0 <= dn <= 14 && 0 <= ln <= 14);
    assert(hb as int == dn * 16 + ln);
    assert((dn * 16 + ln) / 16 == dn && (dn * 16 + ln) % 16 == ln) by (nonlinear_arith)
        requires
            0 <= dn <= 14,
            0 <= ln <= 14,
    ;
    let s = record_bytes(delta, value) + rest;
    assert(s[0] == hb);
    assert(hb != PAYLOAD_MARKER);
    assert((s[0] as int) / 16 == dn && (s[0] as int) % 16 == ln);
    assert(dn != 15 && ln != 15);
    let dc = ext_len(delta);
    let lc = ext_len(vlen);
    lemma_ext_round_trip(delta, ext_bytes(vlen) + value + rest);
    assert(s.skip(1) =~= ext_bytes(delta) + (ext_bytes(vlen) + value + rest));
    assert(ext_decode(dn, s.skip(1)) == Some((delta, dc)));
    lemma_ext_round_trip(vlen, value + rest);
    assert(s.skip(1 + dc) =~= ext_bytes(vlen) + (value + rest));
    assert(ext_decode(ln, s.skip(1 + dc)) == Some((vlen, lc)));
    let body = s.skip(1 + dc + lc);
    assert(body =~= value + rest);
    assert(body.len() >= vlen);
    assert(body.take(vlen) =~= value);
    assert(body.skip(vlen) =~= rest);
}

/// Reading the records the encoder wrote for all values of one key: each
/// value comes back under that key, and decoding continues in the remaining
/// bytes with the key as the reached number.
pub proof fn lemma_decode_encode_values(k: u64, prev: u64, values: Seq<Seq<u8>>, rest: Seq<u8>)
    requires
        prev <= k,
        k - prev <= EXT_VALUE_MAX,
        forall|i: int| 0 <= i < values.len() ==> (#[trigger] values[i]).len() <= EXT_VALUE_MAX,
        values.len() == 0 ==> prev == k,
    ensures
        decode_records(encode_values(k - prev, values) + rest, prev) == (match decode_records(
            rest,
            k,
        ) {
            Ok(rp) => Ok::<(RecordList, Seq<u8>), CoapError>(
                (values.map_values(|v: Seq<u8>| (k, v)) + rp.0, rp.1),
            ),
            Err(e) => Err(e),
        }),
    decreases values.len(),
{
    let recs = values.map_values(|v: Seq<u8>| (k, v));
    if values.len() == 0 {
        assert(encode_values(0, values) + rest =~= rest);
        match decode_records(rest, k) {
            Ok(rp) => {
                assert(recs + rp.0 =~= rp.0);
            },
            Err(_) => {},
        }
    } else {
        let tail_values = values.skip(1);
        let tail_bytes = encode_values(0, tail_values) + rest;
        assert(encode_values(k - prev, values) + rest =~= record_bytes(k - prev, values[0])
            + tail_bytes);
        lemma_decode_one_record(k - prev, values[0], tail_bytes, prev);
        assert((prev + (k - prev)) as u64 == k);
        lemma_decode_encode_values(k, k, tail_values, rest);
        let tail_recs = tail_values.map_values(|v: Seq<u8>| (k, v));
        match decode_records(rest, k) {
            Ok(rp) => {
                assert(seq![(k, values[0])] + (tail_recs + rp.0) =~= recs + rp.0);
            },
            Err(_) => {},
        }
    }
}

/// Reading the whole option section the encoder wrote: every record of the
/// table comes back in wire order, and what follows the section — nothing,
/// or the payload marker and the payload — is handled as on any decode.
pub proof fn lemma_decode_encode_table(entries: TableView, prev: u64, suffix: Seq<u8>)
    requires
        table_sorted(entries),
        entries.len() > 0 ==> prev <= entries[0].0,
        deltas_ok(entries, prev),
        forall|i: int| 0 <= i < entries.len() ==> (#[trigger] entries[i]).1.len() > 0,
        forall|i: int, j: int|
            0 <= i < entries.len() && 0 <= j < entries[i].1.len() ==> (#[trigger] entries[i].1[j]).len()
                <= EXT_VALUE_MAX,
        suffix.len() == 0 || suffix[0] == PAYLOAD_MARKER,
    ensures
        decode_records(encode_table(entries, prev) + suffix, prev) == Ok::<
            (RecordList, Seq<u8>),
            CoapError,
        >(
            (
                records_of(entries),
                if suffix.len() == 0 {
                    Seq::<u8>::empty()
                } else {
                    suffix.skip(1)
                },
            ),
        ),
    decreases entries.len(),
{
    if entries.len() == 0 {
        assert(encode_table(entries, prev) + suffix =~= suffix);
    } else {
        let k = entries[0].0;
        let vs = entries[0].1;
        let rest_entries = entries.skip(1);
        let rest_bytes = encode_table(rest_entries, k) + suffix;
        assert(encode_table(entries, prev) + suffix =~= encode_values(k - prev, vs) + rest_bytes);
        assert forall|i: int| 0 <= i < vs.len() implies (#[trigger] vs[i]).len() <= EXT_VALUE_MAX by {
            assert(entries[0].1[i] == vs[i]);
        }
        lemma_decode_encode_values(k, prev, vs, rest_bytes);
        assert forall|i: int| 0 <= i < rest_entries.len() implies (
        #[trigger] rest_entries[i]).1.len() > 0 by {
            assert(rest_entries[i] == entries[i + 1]);
        }
        assert forall|i: int, j: int|
            0 <= i < rest_entries.len() && 0 <= j < rest_entries[i].1.len() implies (
        #[trigger] rest_entries[i].1[j]).len() <= EXT_VALUE_MAX by {
            assert(rest_entries[i] == entries[i + 1]);
        }
        if rest_entries.len() > 0 {
            assert(rest_entries[0] == entries[1]);
        }
        lemma_decode_encode_table(rest_entries, k, suffix);
        let pl = if suffix.len() == 0 {
            Seq::<u8>::empty()
        } else {
            suffix.skip(1)
        };
        assert(vs.map_values(|v: Seq<u8>| (k, v)) + records_of(rest_entries) =~= records_of(
            entries,
        ));
    }
}

/// The records of one table after the records of another collect as the two
/// tables' records in turn.
pub proof fn lemma_records_of_append(a: TableView, b: TableView)
    ensures
        records_of(a + b) == records_of(a) + records_of(b),
    decreases a.len(),
{
    if a.len() == 0 {
        assert(a + b =~= b);
        assert(records_of(a) + records_of(b) =~= records_of(b));
    } else {
        assert((a + b).skip(1) =~= a.skip(1) + b);
        lemma_records_of_append(a.skip(1), b);
        assert((a + b)[0] == a[0]);
        assert(records_of(a + b) =~= records_of(a) + records_of(b));
    }
}

/// Collecting a run of records that all carry one key, after records whose
/// table stays below that key, appends a single entry holding the run.
proof fn lemma_table_of_append_values(recs: RecordList, k: u64, vs: Seq<Seq<u8>>)
    requires
        vs.len() > 0,
        forall|i: int| 0 <= i < table_of(recs).len() ==> (#[trigger] table_of(recs)[i]).0 < k,
    ensures
        table_of(recs + vs.map_values(|v: Seq<u8>| (k, v))) == table_of(recs).push((k, vs)),
    decreases vs.len(),
{
    let t = table_of(recs);
    let mapped = vs.map_values(|v: Seq<u8>| (k, v));
    let whole = recs + mapped;
    assert(whole.last() == (k, vs.last()));
    if vs.len() == 1 {
        assert(whole.drop_last() =~= recs);
        lemma_table_key_index_unique(t, k, t.len() as int);
        t.insert_ensures(t.len() as int, (k, seq![vs.last()]));
        assert(table_of(whole) == t.insert(t.len() as int, (k, seq![vs.last()])));
        assert(seq![vs.last()] =~= vs);
        assert(t.insert(t.len() as int, (k, vs)) =~= t.push((k, vs)));
    } else {
        let vs0 = vs.drop_last();
        let mapped0 = vs0.map_values(|v: Seq<u8>| (k, v));
        assert(whole.drop_last() =~= recs + mapped0);
        lemma_table_of_append_values(recs, k, vs0);
        let t1 = t.push((k, vs0));
        assert(table_of(whole) == table_add(t1, k, vs.last()));
        assert forall|j: int| 0 <= j < t.len() implies (#[trigger] t1[j]).0 < k by {
            assert(t1[j] == t[j]);
        }
        lemma_table_key_index_unique(t1, k, t.len() as int);
        assert(t1[t.len() as int].0 == k);
        assert(table_add(t1, k, vs.last()) == t1.update(t.len() as int, (k, vs0.push(vs.last()))));
        assert(vs0.push(vs.last()) =~= vs);
        assert(t1.update(t.len() as int, (k, vs)) =~= t.push((k, vs)));
    }
}

/// Collecting the records the encoder emits for a sorted table whose keys
/// all hold at least one value reproduces the table.
pub proof fn lemma_table_of_records(entries: TableView)
    requires
        table_sorted(entries),
        forall|i: int| 0 <= i < entries.len() ==> (#[trigger] entries[i]).1.len() > 0,
    ensures
        table_of(records_of(entries)) == entries,
    decreases entries.len(),
{
    if entries.len() == 0 {
    } else {
        let init = entries.drop_last();
        let last = entries.last();
        assert forall|i: int| 0 <= i < init.len() implies (#[trigger] init[i]).1.len() > 0 by {
            assert(init[i] == entries[i]);
        }
        lemma_table_of_records(init);
        assert(init + seq![last] =~= entries);
        lemma_records_of_append(init, seq![last]);
        let single: TableView = seq![last];
        assert(records_of(single.skip(1)) == Seq::<(u64, Seq<u8>)>::empty());
        assert(records_of(single) =~= last.1.map_values(|v: Seq<u8>| (last.0, v)));
        assert forall|i: int| 0 <= i < table_of(records_of(init)).len() implies (
        #[trigger] table_of(records_of(init))[i]).0 < last.0 by {
            assert(init[i] == entries[i]);
            assert(entries[i].0 < entries[entries.len() - 1].0);
        }
        lemma_table_of_append_values(records_of(init), last.0, last.1);
        assert(init.push(last) =~= entries);
    }
}

/// Every value is no longer than the bytes that encode it and everything
/// around it.
proof fn lemma_values_within_encode_values(d: int, values: Seq<Seq<u8>>)
    ensures
        forall|j: int|
            0 <= j < values.len() ==> (#[trigger] values[j]).len() <= encode_values(
                d,
                values,
            ).len(),
    decreases values.len(),
{
    if values.len() == 0 {
    } else {
        lemma_values_within_encode_values(0, values.skip(1));
        assert forall|j: int|
            0 <= j < values.len() implies (#[trigger] values[j]).len() <= encode_values(
            d,
            values,
        ).len() by {
            if j > 0 {
                assert(values.skip(1)[j - 1] == values[j]);
            }
        }
    }
}

/// Every value in a table is no longer than the table's whole option
/// section on the wire.
pub proof fn lemma_values_within_encode_table(entries: TableView, prev: u64)
    ensures
        forall|i: int, j: int|
            0 <= i < entries.len() && 0 <= j < entries[i].1.len() ==> (
            #[trigger] entries[i].1[j]).len() <= encode_table(entries, prev).len(),
    decreases entries.len(),
{
    if entries.len() == 0 {
    } else {
        let next = if entries[0].1.len() == 0 {
            prev
        } else {
            entries[0].0
        };
        lemma_values_within_encode_table(entries.skip(1), next);
        lemma_values_within_encode_values(entries[0].0 - prev, entries[0].1);
        assert forall|i: int, j: int|
            0 <= i < entries.len() && 0 <= j < entries[i].1.len() implies (
        #[trigger] entries[i].1[j]).len() <= encode_table(entries, prev).len() by {
            if i > 0 {
                assert(entries.skip(1)[i - 1] == entries[i]);
            }
        }
    }
}

/// A table kept in ascending key order never yields a negative delta: each
/// key is at least the number the previous record reached.
pub proof fn lemma_sorted_deltas_nonneg(entries: TableView, prev: u64)
    requires
        table_sorted(entries),
        entries.len() > 0 ==> prev <= entries[0].0,
    ensures
        deltas_nonneg(entries, prev),
    decreases entries.len(),
{
    if entries.len() == 0 {
    } else {
        let rest = entries.skip(1);
        if rest.len() > 0 {
            assert(rest[0] == entries[1]);
            assert(entries[0].0 < entries[1].0);
        }
        assert forall|i: int, j: int| 0 <= i < j < rest.len() implies rest[i].0 < rest[j].0 by {
            assert(rest[i] == entries[i + 1] && rest[j] == entries[j + 1]);
        }
        lemma_sorted_deltas_nonneg(
            rest,
            if entries[0].1.len() == 0 {
                prev
            } else {
                entries[0].0
            },
        );
    }
}

/// Cutting bytes off the tail cannot change what an extension decode
/// yields: it can only make the extension bytes run out.
proof fn lemma_ext_decode_prefix(nibble: int, rest: Seq<u8>, j: int)
    requires
        0 <= j <= rest.len(),
        0 <= nibble <= 14,
        ext_decode(nibble, rest) is Some,
    ensures
        ext_decode(nibble, rest.take(j)) is None || ext_decode(nibble, rest.take(j)) == ext_decode(
            nibble,
            rest,
        ),
{
    let t = rest.take(j);
    if nibble < 13 {
    } else if nibble == 13 {
        if t.len() >= 1 {
            assert(t[0] == rest[0]);
        }
    } else {
        if t.len() >= 2 {
            assert(t[0] == rest[0] && t[1] == rest[1]);
        }
    }
}

/// Truncation safety at the record level: a byte-truncated prefix of a
/// decodable option section either still decodes — the records the cut
/// leaves whole, with a possibly shortened or absent payload — or fails
/// because a record's extension or value bytes ran out; it never trips
/// the delta sentinel or the number ceiling.
#[verifier::rlimit(90)]
pub proof fn lemma_decode_records_prefix(s: Seq<u8>, number: u64, j: int)
    requires
        0 <= j <= s.len(),
        decode_records(s, number) is Ok,
    ensures
        match decode_records(s.take(j), number) {
            Ok(_) => true,
            Err(e) => e == CoapError::InvalidOptionLength,
        },
    decreases s.len(),
{
    let t = s.take(j);
    if t.len() == 0 {
    } else if t[0] == PAYLOAD_MARKER {
        assert(s[0] == t[0]);
    } else {
        assert(s[0] == t[0]);
        let dn = (s[0] as int) / 16;
        let ln = (s[0] as int) % 16;
        assert(dn != 15);
        match ext_decode(dn, s.skip(1)) {
            None => {
                assert(false);
            },
            Some(dp) => {
                let delta = dp.0;
                let dc = dp.1;
                assert(ln != 15);
                assert(t.skip(1) =~= s.skip(1).take(j - 1));
                lemma_ext_decode_prefix(dn, s.skip(1), j - 1);
                if ext_decode(dn, t.skip(1)) is Some {
                    assert(ext_decode(dn, t.skip(1)) == Some((delta, dc)));
                    assert(0 <= dc <= j - 1);
                    match ext_decode(ln, s.skip(1 + dc)) {
                        None => {
                            assert(false);
                        },
                        Some(lp) => {
                            let len = lp.0;
                            let lc = lp.1;
                            assert(t.skip(1 + dc) =~= s.skip(1 + dc).take(j - 1 - dc));
                            lemma_ext_decode_prefix(ln, s.skip(1 + dc), j - 1 - dc);
                            if ext_decode(ln, t.skip(1 + dc)) is Some {
                                assert(ext_decode(ln, t.skip(1 + dc)) == Some((len, lc)));
                                assert(0 <= lc <= j - 1 - dc);
                                let body = s.skip(1 + dc + lc);
                                let body_t = t.skip(1 + dc + lc);
                                assert(body_t =~= body.take(j - 1 - dc - lc));
                                assert(body.len() >= len);
                                assert(number + delta <= u64::MAX);
                                if body_t.len() >= len {
                                    let num2 = (number + delta) as u64;
                                    assert(body_t.take(len) =~= body.take(len));
                                    assert(body_t.skip(len) =~= body.skip(len).take(
                                        j - 1 - dc - lc - len,
                                    ));
                                    assert(decode_records(body.skip(len), num2) is Ok);
                                    lemma_decode_records_prefix(
                                        body.skip(len),
                                        num2,
                                        j - 1 - dc - lc - len,
                                    );
                                }
                            }
                        },
                    }
                }
            },
        }
    }
}

/// Sentinel rejection: an option header byte whose delta nibble is the
/// reserved 15 aborts the decode with an invalid-delta error, and one whose
/// length nibble is 15 with an invalid-length error, whatever else the
/// buffer holds.
pub proof fn lemma_sentinel_rejected(buf: Seq<u8>, number: u64)
    requires
        buf.len() > 0,
        buf[0] != PAYLOAD_MARKER,
    ensures
        (buf[0] as int) / 16 == 15 ==> decode_records(buf, number) == Err::<
            (RecordList, Seq<u8>),
            CoapError,
        >(CoapError::InvalidOptionDelta),
        (buf[0] as int) / 16 != 15 && (buf[0] as int) % 16 == 15 ==> decode_records(buf, number)
            == Err::<(RecordList, Seq<u8>), CoapError>(CoapError::InvalidOptionLength),
{
}

} // verus!
