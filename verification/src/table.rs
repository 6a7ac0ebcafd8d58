use vstd::prelude::*;

use crate::wire::{
    deltas_ok, encode_table, encode_values, ext_bytes, ext_len, ext_nibble_of,
    lemma_table_add_sorted, lemma_table_clear_sorted, lemma_table_key_index_unique,
    lemma_table_set_sorted, push_bytes, record_bytes, record_header_byte, table_add, table_clear,
    table_get, table_key_index, table_set, table_sorted, write_ext, TableView, EXT_VALUE_MAX,
    MAX_MESSAGE_SIZE,
};

verus! {

/// One key of the option table, with that key's values in insertion order.
#[derive(Debug)]
pub struct OptionEntry {
    pub number: u64,
    pub values: Vec<Vec<u8>>,
}

impl View for OptionEntry {
    type V = (u64, Seq<Seq<u8>>);

    open spec fn view(&self) -> (u64, Seq<Seq<u8>>) {
        (self.number, self.values.deep_view())
    }
}

/// The ordered option table: entries in strictly ascending key order, each
/// holding one key and its values. Repeated additions under one key append
/// to that key's value list.
#[derive(Debug)]
pub struct OptionTable {
    entries: Vec<OptionEntry>,
}

impl View for OptionTable {
    type V = TableView;

    closed spec fn view(&self) -> TableView {
        self.entries@.map_values(|e: OptionEntry| e@)
    }
}

impl OptionTable {
    #[verifier::type_invariant]
    spec fn inv(self) -> bool {
        table_sorted(self@)
    }

    /// An empty table.
    pub fn new() -> (t: OptionTable)
        ensures
            t@ == Seq::<(u64, Seq<Seq<u8>>)>::empty(),
    {
        let t = OptionTable { entries: Vec::new() };
        proof {
            assert(t@ =~= Seq::<(u64, Seq<Seq<u8>>)>::empty());
        }
        t
    }

    /// How many keys the table holds.
    pub fn len(&self) -> (n: usize)
        ensures
            n == self@.len(),
    {
        self.entries.len()
    }

    /// The key of the entry at a position.
    pub fn number_at(&self, i: usize) -> (n: u64)
        requires
            i < self@.len(),
        ensures
            n == self@[i as int].0,
    {
        self.entries[i].number
    }

    /// The values of the entry at a position.
    pub fn values_at(&self, i: usize) -> (vs: &Vec<Vec<u8>>)
        requires
            i < self@.len(),
        ensures
            vs.deep_view() == self@[i as int].1,
    {
        &self.entries[i].values
    }

    /// Where a key stands, or would be inserted, in the entry order.
    fn position_of(&self, number: u64) -> (i: usize)
        ensures
            i as int == table_key_index(self@, number),
            i <= self@.len(),
            i < self@.len() ==> self@[i as int].0 >= number,
            forall|j: int| 0 <= j < i ==> (#[trigger] self@[j]).0 < number,
    {
        proof {
            use_type_invariant(self);
        }
        let mut i: usize = 0;
        while i < self.entries.len() && self.entries[i].number < number
            invariant
                i <= self.entries.len(),
                self@.len() == self.entries.len(),
                forall|j: int| 0 <= j < i ==> (#[trigger] self@[j]).0 < number,
            decreases self.entries.len() - i,
        {
            proof {
                assert(self@[i as int].0 == self.entries@[i as int].number);
            }
            i = i + 1;
        }
        proof {
            if i < self.entries.len() {
                assert(self@[i as int].0 == self.entries@[i as int].number);
            }
            lemma_table_key_index_unique(self@, number, i as int);
        }
        i
    }

    /// Appends a value under a key, keeping every value already stored
    /// there; an absent key is inserted at its sorted position.
    pub fn add(&mut self, number: u64, value: Vec<u8>)
        ensures
            final(self)@ == table_add(old(self)@, number, value@),
    {
        proof {
            use_type_invariant(&*self);
        }
        let ghost t = self@;
        let i = self.position_of(number);
        let mut entries: Vec<OptionEntry> = Vec::new();
        core::mem::swap(&mut entries, &mut self.entries);
        proof {
            assert(self@ =~= Seq::<(u64, Seq<Seq<u8>>)>::empty());
        }
        if i < entries.len() && entries[i].number == number {
            let mut e = entries.remove(i);
            e.values.push(value);
            entries.insert(i, e);
            proof {
                assert(value.deep_view() =~= value@);
                assert(e.values.deep_view() =~= t[i as int].1.push(value@));
                assert(entries@.map_values(|x: OptionEntry| x@) =~= table_add(t, number, value@));
            }
        } else {
            let mut values: Vec<Vec<u8>> = Vec::new();
            values.push(value);
            let e = OptionEntry { number, values };
            entries.insert(i, e);
            proof {
                assert(value.deep_view() =~= value@);
                assert(e.values.deep_view() =~= seq![value@]);
                t.insert_ensures(i as int, (number, seq![value@]));
                assert(entries@.map_values(|x: OptionEntry| x@) =~= table_add(t, number, value@));
            }
        }
        proof {
            lemma_table_add_sorted(t, number, value@);
        }
        self.entries = entries;
    }

    /// Replaces the whole value list of a key; an absent key is inserted at
    /// its sorted position.
    pub fn set(&mut self, number: u64, values: Vec<Vec<u8>>)
        ensures
            final(self)@ == table_set(old(self)@, number, values.deep_view()),
    {
        proof {
            use_type_invariant(&*self);
        }
        let ghost t = self@;
        let ghost vs = values.deep_view();
        let i = self.position_of(number);
        let mut entries: Vec<OptionEntry> = Vec::new();
        core::mem::swap(&mut entries, &mut self.entries);
        proof {
            assert(self@ =~= Seq::<(u64, Seq<Seq<u8>>)>::empty());
        }
        if i < entries.len() && entries[i].number == number {
            let _ = entries.remove(i);
            entries.insert(i, OptionEntry { number, values });
            proof {
                assert(entries@.map_values(|x: OptionEntry| x@) =~= table_set(t, number, vs));
            }
        } else {
            entries.insert(i, OptionEntry { number, values });
            proof {
                t.insert_ensures(i as int, (number, vs));
                assert(entries@.map_values(|x: OptionEntry| x@) =~= table_set(t, number, vs));
            }
        }
        proof {
            lemma_table_set_sorted(t, number, vs);
        }
        self.entries = entries;
    }

    /// Empties the value list of a key without removing the key; a table
    /// without the key is left unchanged.
    pub fn clear(&mut self, number: u64)
        ensures
            final(self)@ == table_clear(old(self)@, number),
    {
        proof {
            use_type_invariant(&*self);
        }
        let ghost t = self@;
        let i = self.position_of(number);
        if i < self.entries.len() && self.entries[i].number == number {
            let mut entries: Vec<OptionEntry> = Vec::new();
            core::mem::swap(&mut entries, &mut self.entries);
            proof {
                assert(self@ =~= Seq::<(u64, Seq<Seq<u8>>)>::empty());
            }
            let _ = entries.remove(i);
            let e = OptionEntry { number, values: Vec::new() };
            proof {
                assert(e.values.deep_view() =~= Seq::<Seq<u8>>::empty());
            }
            entries.insert(i, e);
            proof {
                assert(entries@.map_values(|x: OptionEntry| x@) =~= table_clear(t, number));
                lemma_table_clear_sorted(t, number);
            }
            self.entries = entries;
        } else {
            proof {
                assert(self@ =~= table_clear(t, number));
            }
        }
    }

    /// The value list stored under a key, or nothing when the key was never
    /// populated; a key whose list was emptied is still reported.
    pub fn get(&self, number: u64) -> (r: Option<&Vec<Vec<u8>>>)
        ensures
            match r {
                Some(vs) => table_get(self@, number) == Some(vs.deep_view()),
                None => table_get(self@, number) == None::<Seq<Seq<u8>>>,
            },
    {
        let i = self.position_of(number);
        if i < self.entries.len() && self.entries[i].number == number {
            proof {
                assert(self@[i as int] == self.entries@[i as int]@);
            }
            Some(&self.entries[i].values)
        } else {
            None
        }
    }
}

impl OptionTable {
    /// The size of the table's option section on the wire, when it stays
    /// within `limit` bytes; `None` reports only that the limit is passed.
    pub(crate) fn encoded_size_within(&self, limit: usize) -> (r: Option<usize>)
        requires
            limit <= 0xFFFF_FFFFusize,
        ensures
            match r {
                Some(n) => n as int == encode_table(self@, 0).len() && n <= limit,
                None => encode_table(self@, 0).len() > limit,
            },
    {
        proof {
            use_type_invariant(self);
        }
        let ghost total = encode_table(self@, 0);
        let limit64: u64 = limit as u64;
        let mut size: u64 = 0;
        let mut prev: u64 = 0;
        let mut i: usize = 0;
        proof {
            assert(self@.skip(0) =~= self@);
        }
        while i < self.entries.len()
            invariant
                i <= self.entries.len(),
                self@.len() == self.entries.len(),
                table_sorted(self@),
                limit <= 0xFFFF_FFFFusize,
                limit64 == limit as u64,
                size <= limit64,
                i < self.entries.len() ==> prev <= self@[i as int].0,
                size + encode_table(self@.skip(i as int), prev).len() == encode_table(
                    self@,
                    0,
                ).len(),
            decreases self.entries.len() - i,
        {
            let ghost rem = self@.skip(i as int);
            proof {
                assert(rem[0] == self@[i as int]);
                assert(rem.skip(1) =~= self@.skip(i as int + 1));
            }
            let number = self.entries[i].number;
            let vcount = self.entries[i].values.len();
            let ghost vs = self@[i as int].1;
            proof {
                assert(self@[i as int] == self.entries@[i as int]@);
                assert(vs.len() == vcount);
            }
            let ghost prev2: u64 = if vcount == 0 {
                prev
            } else {
                number
            };
            proof {
                assert(vs.skip(0) =~= vs);
                assert(encode_table(rem, prev) == encode_values(number - prev, vs) + encode_table(
                    self@.skip(i as int + 1),
                    prev2,
                ));
            }
            let mut j: usize = 0;
            while j < vcount
                invariant
                    j <= vcount,
                    i < self.entries.len(),
                    self@.len() == self.entries.len(),
                    table_sorted(self@),
                    limit <= 0xFFFF_FFFFusize,
                    limit64 == limit as u64,
                    size <= limit64,
                    prev <= number,
                    number == self@[i as int].0,
                    vs == self@[i as int].1,
                    vs.len() == vcount,
                    vcount == self.entries@[i as int].values.len(),
                    prev2 == if vcount == 0 {
                        prev
                    } else {
                        number
                    },
                    size + encode_values(
                        if j == 0 {
                            number - prev
                        } else {
                            0
                        },
                        vs.skip(j as int),
                    ).len() + encode_table(self@.skip(i as int + 1), prev2).len() == encode_table(
                        self@,
                        0,
                    ).len(),
                decreases vcount - j,
            {
                let ghost dj: int = if j == 0 {
                    number - prev
                } else {
                    0
                };
                let delta: u64 = if j == 0 {
                    number - prev
                } else {
                    0
                };
                let vlen = self.entries[i].values[j].len();
                proof {
                    assert(vs[j as int] == self.entries@[i as int].values@[j as int].deep_view());
                    assert(self.entries@[i as int].values@[j as int].deep_view()
                        =~= self.entries@[i as int].values@[j as int]@);
                    assert(vs[j as int].len() == vlen);
                    assert(vs.skip(j as int)[0] == vs[j as int]);
                    assert(vs.skip(j as int).skip(1) =~= vs.skip(j as int + 1));
                    assert(encode_values(dj, vs.skip(j as int)) == record_bytes(dj, vs[j as int])
                        + encode_values(0, vs.skip(j as int + 1)));
                    assert(ext_bytes(dj).len() == ext_len(dj));
                    assert(ext_bytes(vlen as int).len() == ext_len(vlen as int));
                    assert(record_bytes(dj, vs[j as int]).len() == 1 + ext_len(dj) + ext_len(
                        vlen as int,
                    ) + vlen);
                }
                if vlen as u64 > limit64 {
                    return None;
                }
                let dl: u64 = if delta <= 12 {
                    0
                } else if delta <= 268 {
                    1
                } else {
                    2
                };
                let ll: u64 = if vlen <= 12 {
                    0
                } else if vlen <= 268 {
                    1
                } else {
                    2
                };
                let rlen: u64 = 1 + dl + ll + (vlen as u64);
                if size + rlen > limit64 {
                    return None;
                }
                size = size + rlen;
                j = j + 1;
            }
            proof {
                assert(vs.skip(vcount as int) =~= Seq::<Seq<u8>>::empty());
                if vcount == 0 {
                    assert(encode_values(number - prev, vs).len() == 0);
                }
            }
            if vcount > 0 {
                prev = number;
            }
            i = i + 1;
            proof {
                if i < self.entries.len() {
                    assert(self@[i - 1].0 < self@[i as int].0);
                }
            }
        }
        proof {
            assert(self@.skip(self@.len() as int) =~= Seq::<(u64, Seq<Seq<u8>>)>::empty());
        }
        Some(size as usize)
    }

    /// Whether every delta the encoder would emit for this table fits the
    /// two-byte extension tier.
    pub(crate) fn deltas_in_range(&self) -> (b: bool)
        ensures
            b == deltas_ok(self@, 0),
    {
        proof {
            use_type_invariant(self);
        }
        let mut prev: u64 = 0;
        let mut i: usize = 0;
        proof {
            assert(self@.skip(0) =~= self@);
        }
        while i < self.entries.len()
            invariant
                i <= self.entries.len(),
                self@.len() == self.entries.len(),
                table_sorted(self@),
                i < self.entries.len() ==> prev <= self@[i as int].0,
                deltas_ok(self@, 0) == deltas_ok(self@.skip(i as int), prev),
            decreases self.entries.len() - i,
        {
            let ghost rem = self@.skip(i as int);
            proof {
                assert(rem[0] == self@[i as int]);
                assert(rem.skip(1) =~= self@.skip(i as int + 1));
                assert(self@[i as int] == self.entries@[i as int]@);
            }
            let number = self.entries[i].number;
            let has_values = self.entries[i].values.len() > 0;
            proof {
                assert(self@[i as int].1.len() == self.entries@[i as int].values.len());
            }
            if has_values && number - prev > EXT_VALUE_MAX {
                return false;
            }
            if has_values {
                prev = number;
            }
            i = i + 1;
            proof {
                if i < self.entries.len() {
                    assert(self@[i - 1].0 < self@[i as int].0);
                }
            }
        }
        proof {
            assert(self@.skip(self@.len() as int) =~= Seq::<(u64, Seq<Seq<u8>>)>::empty());
        }
        true
    }

    /// Appends the wire bytes of the whole option section to a buffer.
    #[verifier::rlimit(90)]
    pub(crate) fn write_options(&self, out: &mut Vec<u8>)
        requires
            deltas_ok(self@, 0),
            encode_table(self@, 0).len() <= MAX_MESSAGE_SIZE as int,
        ensures
            final(out)@ == old(out)@ + encode_table(self@, 0),
    {
        proof {
            use_type_invariant(self);
        }
        let ghost total = encode_table(self@, 0);
        let mut prev: u64 = 0;
        let mut i: usize = 0;
        proof {
            assert(self@.skip(0) =~= self@);
            assert(out@ + encode_table(self@, 0) =~= old(out)@ + total);
        }
        while i < self.entries.len()
            invariant
                i <= self.entries.len(),
                self@.len() == self.entries.len(),
                table_sorted(self@),
                total == encode_table(self@, 0),
                total.len() <= MAX_MESSAGE_SIZE as int,
                i < self.entries.len() ==> prev <= self@[i as int].0,
                deltas_ok(self@.skip(i as int), prev),
                out@.len() >= old(out)@.len(),
                out@ + encode_table(self@.skip(i as int), prev) == old(out)@ + total,
            decreases self.entries.len() - i,
        {
            let ghost rem = self@.skip(i as int);
            proof {
                assert(rem[0] == self@[i as int]);
                assert(rem.skip(1) =~= self@.skip(i as int + 1));
                assert(self@[i as int] == self.entries@[i as int]@);
            }
            let number = self.entries[i].number;
            let vcount = self.entries[i].values.len();
            let ghost vs = self@[i as int].1;
            proof {
                assert(vs.len() == vcount);
            }
            let ghost prev2: u64 = if vcount == 0 {
                prev
            } else {
                number
            };
            proof {
                assert(vs.skip(0) =~= vs);
                assert(encode_table(rem, prev) == encode_values(number - prev, vs) + encode_table(
                    self@.skip(i as int + 1),
                    prev2,
                ));
                assert(deltas_ok(rem, prev) == ((vs.len() == 0 || number - prev <= EXT_VALUE_MAX)
                    && deltas_ok(self@.skip(i as int + 1), prev2)));
            }
            let mut j: usize = 0;
            while j < vcount
                invariant
                    j <= vcount,
                    i < self.entries.len(),
                    self@.len() == self.entries.len(),
                    table_sorted(self@),
                    total == encode_table(self@, 0),
                    total.len() <= MAX_MESSAGE_SIZE as int,
                    prev <= number,
                    number == self@[i as int].0,
                    vs == self@[i as int].1,
                    vs.len() == vcount,
                    vcount == self.entries@[i as int].values.len(),
                    vcount > 0 ==> number - prev <= EXT_VALUE_MAX,
                    prev2 == if vcount == 0 {
                        prev
                    } else {
                        number
                    },
                    deltas_ok(self@.skip(i as int + 1), prev2),
                    out@.len() >= old(out)@.len(),
                    out@ + encode_values(
                        if j == 0 {
                            number - prev
                        } else {
                            0
                        },
                        vs.skip(j as int),
                    ) + encode_table(self@.skip(i as int + 1), prev2) == old(out)@ + total,
                decreases vcount - j,
            {
                let ghost dj: int = if j == 0 {
                    number - prev
                } else {
                    0
                };
                let delta: u64 = if j == 0 {
                    number - prev
                } else {
                    0
                };
                let value = &self.entries[i].values[j];
                let vlen = value.len();
                proof {
                    assert(vs[j as int] == self.entries@[i as int].values@[j as int].deep_view());
                    assert(self.entries@[i as int].values@[j as int].deep_view() =~= value@);
                    assert(vs[j as int].len() == vlen);
                    assert(vs.skip(j as int)[0] == vs[j as int]);
                    assert(vs.skip(j as int).skip(1) =~= vs.skip(j as int + 1));
                    assert(encode_values(dj, vs.skip(j as int)) == record_bytes(dj, vs[j as int])
                        + encode_values(0, vs.skip(j as int + 1)));
                    assert(ext_bytes(dj).len() == ext_len(dj));
                    assert(ext_bytes(vlen as int).len() == ext_len(vlen as int));
                    assert(record_bytes(dj, vs[j as int]).len() >= vlen);
                    assert((out@ + encode_values(dj, vs.skip(j as int)) + encode_table(
                        self@.skip(i as int + 1),
                        prev2,
                    )).len() == out@.len() + encode_values(dj, vs.skip(j as int)).len()
                        + encode_table(self@.skip(i as int + 1), prev2).len());
                    assert(encode_values(dj, vs.skip(j as int)).len() <= total.len());
                    assert(vlen <= total.len());
                }
                let hb = ext_nibble_of(delta) * 16 + ext_nibble_of(vlen as u64);
                proof {
                    assert(hb == record_header_byte(dj, vlen as int));
                }
                let ghost out0 = out@;
                out.push(hb);
                write_ext(out, delta);
                write_ext(out, vlen as u64);
                push_bytes(out, value.as_slice());
                proof {
                    assert(out@ =~= out0 + record_bytes(dj, vs[j as int]));
                    assert(out@ + encode_values(0, vs.skip(j as int + 1)) + encode_table(
                        self@.skip(i as int + 1),
                        prev2,
                    ) =~= old(out)@ + total);
                }
                j = j + 1;
            }
            proof {
                assert(vs.skip(vcount as int) =~= Seq::<Seq<u8>>::empty());
                if vcount == 0 {
                    assert(encode_values(number - prev, vs).len() == 0);
                    assert(out@ + encode_table(self@.skip(i as int + 1), prev2) =~= old(out)@
                        + total);
                } else {
                    assert(out@ + encode_values(0, vs.skip(vcount as int)) + encode_table(
                        self@.skip(i as int + 1),
                        prev2,
                    ) =~= out@ + encode_table(self@.skip(i as int + 1), prev2));
                }
            }
            if vcount > 0 {
                prev = number;
            }
            i = i + 1;
            proof {
                if i < self.entries.len() {
                    assert(self@[i - 1].0 < self@[i as int].0);
                }
            }
        }
        proof {
            assert(self@.skip(self@.len() as int) =~= Seq::<(u64, Seq<Seq<u8>>)>::empty());
            assert(out@ =~= old(out)@ + total);
        }
    }
}

} // verus!
