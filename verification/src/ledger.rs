//! Byte-offset bookkeeping for the line-oriented ledger file. The writer
//! rewrites the file's last line in place, so it must always know where
//! that line starts and how long it is.

use vstd::prelude::*;

verus! {

/// Line-related counts, updated by processing lines (read or written).
/// Tracks the byte offset and length of the last processed line of the
/// ledger file.
pub struct LineCounts {
    /// Byte offset of the last processed line.
    pub last_line_start_offset: usize,
    /// Size in bytes of the last processed line.
    pub last_line_len: usize,
    /// Index of the last processed line.
    pub line_nb: usize,
}

impl LineCounts {
    /// Starts at the top of the file with no line processed yet.
    pub fn new() -> (r: LineCounts)
        ensures
            r.last_line_start_offset == 0,
            r.last_line_len == 0,
            r.line_nb == 0,
    {
        LineCounts { last_line_start_offset: 0, last_line_len: 0, line_nb: 0 }
    }

    /// Current cursor offset, just past the last processed line.
    pub fn cursor(&self) -> (r: usize)
        requires
            self.last_line_start_offset + self.last_line_len <= usize::MAX,
        ensures
            r == self.last_line_start_offset + self.last_line_len,
    {
        self.last_line_start_offset + self.last_line_len
    }

    /// Accounts for processing the next line of `line_len` bytes: the new
    /// line starts at the old cursor.
    pub fn advance(&mut self, line_len: usize)
        requires
            old(self).last_line_start_offset + old(self).last_line_len <= usize::MAX,
            old(self).line_nb + 1 <= usize::MAX,
        ensures
            final(self).last_line_start_offset == old(self).last_line_start_offset + old(
                self,
            ).last_line_len,
            final(self).last_line_len == line_len,
            final(self).line_nb == old(self).line_nb + 1,
    {
        self.last_line_start_offset = self.last_line_start_offset + self.last_line_len;
        self.last_line_len = line_len;
        self.line_nb = self.line_nb + 1;
    }

    /// Forgets the last line, as if there were none: the cursor stays, but
    /// nothing can be rewritten. Used to lock the header and locked
    /// entries in place.
    pub fn ignore_last_line(&mut self)
        requires
            old(self).last_line_start_offset + old(self).last_line_len <= usize::MAX,
        ensures
            final(self).last_line_start_offset == old(self).last_line_start_offset + old(
                self,
            ).last_line_len,
            final(self).last_line_len == 0,
            final(self).line_nb == old(self).line_nb,
    {
        self.last_line_start_offset = self.last_line_start_offset + self.last_line_len;
        self.last_line_len = 0;
    }
}

/// A decimal digit byte.
pub open spec fn is_digit(b: u8) -> bool {
    48 <= b <= 57
}

/// The number a big-endian sequence of digit bytes denotes.
pub open spec fn decimal_value(s: Seq<u8>) -> int
    decreases s.len(),
{
    if s.len() == 0 {
        0
    } else {
        decimal_value(s.drop_last()) * 10 + (s.last() - 48)
    }
}

/// The canonical digit bytes of a number: no leading zeroes.
pub open spec fn decimal_digits(n: int) -> Seq<u8>
    decreases n,
{
    if n < 10 {
        seq![(48 + n) as u8]
    } else {
        decimal_digits(n / 10).push((48 + n % 10) as u8)
    }
}

/// The canonical digits denote their number.
pub proof fn lemma_decimal_digits_value(n: int)
    requires
        n >= 0,
    ensures
        decimal_value(decimal_digits(n)) == n,
        decimal_digits(n).len() >= 1,
        forall|i: int| 0 <= i < decimal_digits(n).len() ==> is_digit(#[trigger] decimal_digits(n)[i]),
    decreases n,
{
    if n < 10 {
        assert(decimal_digits(n).drop_last() =~= Seq::<u8>::empty());
        assert((48 + n) as u8 == 48 + n);
        assert(decimal_value(Seq::<u8>::empty()) == 0);
        assert(decimal_digits(n).last() == 48 + n);
        assert(decimal_value(decimal_digits(n)) == n);
    } else {
        lemma_decimal_digits_value(n / 10);
        let d = decimal_digits(n);
        assert(d.drop_last() =~= decimal_digits(n / 10));
        assert((48 + n % 10) as u8 == 48 + n % 10);
        assert(decimal_value(d) == decimal_value(decimal_digits(n / 10)) * 10 + n % 10);
        assert forall|i: int| 0 <= i < d.len() implies is_digit(d[i]) by {
            if i < d.len() - 1 {
                assert(d[i] == decimal_digits(n / 10)[i]);
            }
        }
    }
}

/// A longer digit prefix never denotes a smaller number.
proof fn lemma_decimal_value_take_grows(s: Seq<u8>, i: int, j: int)
    requires
        0 <= i <= j <= s.len(),
        forall|k: int| 0 <= k < s.len() ==> is_digit(#[trigger] s[k]),
    ensures
        decimal_value(s.take(i)) <= decimal_value(s.take(j)),
        decimal_value(s.take(i)) >= 0,
    decreases j - i,
{
    if i == j {
        lemma_decimal_value_nonneg(s.take(i), s);
    } else {
        lemma_decimal_value_take_grows(s, i, j - 1);
        let t = s.take(j);
        assert(t.drop_last() =~= s.take(j - 1));
        assert(decimal_value(t) == decimal_value(s.take(j - 1)) * 10 + (s[j - 1] - 48));
        lemma_decimal_value_nonneg(s.take(j - 1), s);
    }
}

/// Digit sequences denote nonnegative numbers.
proof fn lemma_decimal_value_nonneg(t: Seq<u8>, s: Seq<u8>)
    requires
        forall|k: int| 0 <= k < s.len() ==> is_digit(#[trigger] s[k]),
        exists|i: int| 0 <= i <= s.len() && t == s.take(i),
    ensures
        decimal_value(t) >= 0,
    decreases t.len(),
{
    if t.len() > 0 {
        let i = choose|i: int| 0 <= i <= s.len() && t == s.take(i);
        assert(t.drop_last() =~= s.take(i - 1));
        lemma_decimal_value_nonneg(t.drop_last(), s);
        assert(is_digit(t.last())) by {
            assert(t.last() == s[i - 1]);
        }
    }
}

/// Writes `n` in decimal onto the end of `out`, most significant digit
/// first, with no leading zeroes.
pub fn push_decimal(n: u64, out: &mut Vec<u8>)
    ensures
        final(out)@ == old(out)@ + decimal_digits(n as int),
    decreases n,
{
    if n < 10 {
        out.push(48 + (n as u8));
        proof {
            assert(final(out)@ =~= old(out)@ + decimal_digits(n as int));
        }
    } else {
        push_decimal(n / 10, out);
        out.push(48 + ((n % 10) as u8));
        proof {
            assert(final(out)@ =~= old(out)@ + decimal_digits(n as int));
        }
    }
}

/// The decimal digits of `n`, most significant first, no leading zeroes.
pub fn format_u64(n: u64) -> (r: Vec<u8>)
    ensures
        r@ == decimal_digits(n as int),
        decimal_value(r@) == n,
{
    let mut out: Vec<u8> = Vec::new();
    push_decimal(n, &mut out);
    proof {
        assert(out@ =~= decimal_digits(n as int));
        lemma_decimal_digits_value(n as int);
    }
    out
}

/// Reads a decimal number: the bytes must be all digits, at least one, and
/// denote a number that fits; exactly then a number comes back, and it is
/// the denoted one.
pub fn parse_u64(s: &[u8]) -> (r: Option<u64>)
    ensures
        r matches Some(v) ==> s@.len() > 0 && (forall|k: int|
            0 <= k < s@.len() ==> is_digit(#[trigger] s@[k])) && decimal_value(s@) == v,
        r is None ==> s@.len() == 0 || (exists|k: int|
            0 <= k < s@.len() && !is_digit(#[trigger] s@[k])) || decimal_value(s@) > u64::MAX,
{
    if s.len() == 0 {
        return None;
    }
    let mut val: u64 = 0;
    let mut i: usize = 0;
    while i < s.len()
        invariant
            i <= s@.len(),
            forall|k: int| 0 <= k < i ==> is_digit(#[trigger] s@[k]),
            val == decimal_value(s@.take(i as int)),
        decreases s@.len() - i,
    {
        let b = s[i];
        if b < 48 || b > 57 {
            return None;
        }
        let d = (b - 48) as u64;
        let scaled = match val.checked_mul(10) {
            Some(x) => x,
            None => {
                proof {
                    lemma_parse_overflow(s@, i as int, val as int, d as int);
                }
                return None;
            }
        };
        let next = match scaled.checked_add(d) {
            Some(x) => x,
            None => {
                proof {
                    lemma_parse_overflow(s@, i as int, val as int, d as int);
                }
                return None;
            }
        };
        proof {
            assert(s@.take(i + 1).drop_last() =~= s@.take(i as int));
        }
        val = next;
        i += 1;
    }
    proof {
        assert(s@.take(s@.len() as int) =~= s@);
    }
    Some(val)
}

/// When one more digit overflows the running value, the whole digit string
/// denotes a number too large.
proof fn lemma_parse_overflow(s: Seq<u8>, i: int, val: int, d: int)
    requires
        0 <= i < s.len(),
        val == decimal_value(s.take(i)),
        d == s[i] - 48,
        is_digit(s[i]),
        forall|k: int| 0 <= k < i ==> is_digit(#[trigger] s[k]),
        val * 10 + d > u64::MAX,
    ensures
        (exists|k: int| 0 <= k < s.len() && !is_digit(#[trigger] s[k])) || decimal_value(s)
            > u64::MAX,
{
    if forall|k: int| 0 <= k < s.len() ==> is_digit(#[trigger] s[k]) {
        assert(s.take(i + 1).drop_last() =~= s.take(i));
        assert(decimal_value(s.take(i + 1)) == val * 10 + d);
        lemma_decimal_value_take_grows(s, i + 1, s.len() as int);
        assert(s.take(s.len() as int) =~= s);
    }
}

/// Splits a line into its tab-separated fields: the fields joined back
/// with tabs give the line, and no field holds a tab. One more field than
/// there are tabs, always at least one.
pub fn split_tabs(line: &[u8]) -> (r: Vec<Vec<u8>>)
    ensures
        r@.len() >= 1,
        joined_with_tabs(r.deep_view()) == line@,
        forall|f: int|
            0 <= f < r.deep_view().len() ==> !(#[trigger] r.deep_view()[f]).contains(9u8),
{
    let mut fields: Vec<Vec<u8>> = Vec::new();
    let mut cur: Vec<u8> = Vec::new();
    let mut i: usize = 0;
    while i < line.len()
        invariant
            i <= line@.len(),
            joined_with_tabs(fields.deep_view().push(cur@)) == line@.take(i as int),
            forall|f: int|
                0 <= f < fields.deep_view().len() ==> !(#[trigger] fields.deep_view()[f]).contains(
                    9u8,
                ),
            !cur@.contains(9u8),
        decreases line@.len() - i,
    {
        let b = line[i];
        let ghost fields0 = fields.deep_view();
        let ghost cur0 = cur@;
        if b == 9 {
            fields.push(cur);
            cur = Vec::new();
            proof {
                lemma_join_push_field(fields0, cur0);
                assert(fields.deep_view() =~~= fields0.push(cur0));
                assert(joined_with_tabs(fields.deep_view().push(cur@)) =~= line@.take(i + 1));
            }
        } else {
            cur.push(b);
            proof {
                lemma_join_last_byte(fields0, cur0, b);
                assert(joined_with_tabs(fields.deep_view().push(cur@)) =~= line@.take(i + 1));
                assert(!cur@.contains(9u8)) by {
                    assert(forall|k: int| 0 <= k < cur@.len() - 1 ==> cur@[k] == cur0[k]);
                }
            }
        }
        i += 1;
    }
    let ghost fields0 = fields.deep_view();
    let ghost cur0 = cur@;
    fields.push(cur);
    proof {
        assert(fields.deep_view() =~~= fields0.push(cur0));
        assert(line@.take(line@.len() as int) =~= line@);
    }
    fields
}

/// A field that denotes a number that fits: nonempty, all digits, small
/// enough.
pub open spec fn parseable(f: Seq<u8>) -> bool {
    &&& f.len() > 0
    &&& (forall|k: int| 0 <= k < f.len() ==> is_digit(#[trigger] f[k]))
    &&& decimal_value(f) <= u64::MAX
}

/// Reads the duration columns of a ledger entry: every field from `from`
/// on must be a decimal number, and exactly then the numbers come back,
/// in field order.
pub fn parse_seconds(fields: &Vec<Vec<u8>>, from: usize) -> (r: Option<Vec<u64>>)
    requires
        from <= fields@.len(),
    ensures
        r matches Some(secs) ==> secs@.len() == fields@.len() - from && (forall|i: int|
            0 <= i < secs@.len() ==> parseable(fields.deep_view()[from + i]) && secs@[i]
                == decimal_value(fields.deep_view()[from + i])),
        r is None <==> exists|i: int|
            from <= i < fields@.len() && !parseable(#[trigger] fields.deep_view()[i]),
{
    let mut secs: Vec<u64> = Vec::new();
    let mut i: usize = from;
    while i < fields.len()
        invariant
            from <= i <= fields@.len(),
            secs@.len() == i - from,
            forall|k: int|
                0 <= k < secs@.len() ==> parseable(#[trigger] fields.deep_view()[from + k])
                    && secs@[k] == decimal_value(fields.deep_view()[from + k]),
        decreases fields@.len() - i,
    {
        proof {
            assert(fields.deep_view()[i as int] =~= fields@[i as int]@);
        }
        match parse_u64(fields[i].as_slice()) {
            Some(v) => {
                let ghost secs0 = secs@;
                secs.push(v);
                proof {
                    assert(parseable(fields@[i as int]@));
                    assert forall|k: int|
                        0 <= k < secs@.len() implies parseable(
                        #[trigger] fields.deep_view()[from + k],
                    ) && secs@[k] == decimal_value(fields.deep_view()[from + k]) by {
                        if k < secs0.len() {
                            assert(secs@[k] == secs0[k]);
                            assert(parseable(fields.deep_view()[from + k]));
                        } else {
                            assert(secs@[k] == v);
                            assert(from + k == i as int);
                        }
                    }
                }
            }
            None => {
                proof {
                    assert(!parseable(fields.deep_view()[i as int]));
                }
                return None;
            }
        }
        i += 1;
    }
    proof {
        assert forall|i: int|
            from <= i < fields@.len() implies parseable(#[trigger] fields.deep_view()[i]) by {
            let k = i - from;
            assert(parseable(fields.deep_view()[from + k]));
        }
    }
    Some(secs)
}

/// Builds one ledger entry line: the time field, one decimal duration per
/// category, tabs in between, and the closing newline.
pub fn format_entry_line(time_field: &[u8], seconds: &Vec<u64>) -> (r: Vec<u8>)
    ensures
        r@ == joined_with_tabs(
            seq![time_field@] + Seq::new(seconds@.len(), |i: int| decimal_digits(seconds@[i] as int)),
        ).push(10u8),
{
    let ghost all_fields = seq![time_field@] + Seq::new(
        seconds@.len(),
        |i: int| decimal_digits(seconds@[i] as int),
    );
    let mut out: Vec<u8> = Vec::new();
    let mut i: usize = 0;
    while i < time_field.len()
        invariant
            i <= time_field@.len(),
            out@ == time_field@.take(i as int),
        decreases time_field@.len() - i,
    {
        out.push(time_field[i]);
        proof {
            assert(out@ =~= time_field@.take(i + 1));
        }
        i += 1;
    }
    proof {
        assert(out@ =~= time_field@);
        assert(all_fields.take(1) =~= seq![time_field@]);
        assert(joined_with_tabs(all_fields.take(1)) == time_field@);
    }
    let mut j: usize = 0;
    while j < seconds.len()
        invariant
            j <= seconds@.len(),
            all_fields == seq![time_field@] + Seq::new(
                seconds@.len(),
                |i: int| decimal_digits(seconds@[i] as int),
            ),
            out@ == joined_with_tabs(all_fields.take(j + 1)),
        decreases seconds@.len() - j,
    {
        out.push(9);
        push_decimal(seconds[j], &mut out);
        proof {
            let t = all_fields.take(j + 2);
            assert(t.drop_last() =~= all_fields.take(j + 1));
            assert(t.last() == decimal_digits(seconds@[j as int] as int));
            assert(out@ =~= joined_with_tabs(all_fields.take(j + 1)).push(9u8) + decimal_digits(
                seconds@[j as int] as int,
            ));
        }
        j += 1;
    }
    proof {
        assert(all_fields.take(all_fields.len() as int) =~= all_fields);
    }
    out.push(10);
    out
}

/// The line the fields denote: the fields in order with a tab between
/// each pair.
pub open spec fn joined_with_tabs(fields: Seq<Seq<u8>>) -> Seq<u8>
    decreases fields.len(),
{
    if fields.len() == 0 {
        Seq::empty()
    } else if fields.len() == 1 {
        fields[0]
    } else {
        joined_with_tabs(fields.drop_last()).push(9u8) + fields.last()
    }
}

/// Appending an empty field after a tab extends the join by one tab.
proof fn lemma_join_push_field(fields: Seq<Seq<u8>>, cur: Seq<u8>)
    ensures
        joined_with_tabs(fields.push(cur).push(Seq::empty())) == joined_with_tabs(
            fields.push(cur),
        ).push(9u8),
{
    let two = fields.push(cur).push(Seq::<u8>::empty());
    assert(two.drop_last() =~= fields.push(cur));
    assert(joined_with_tabs(two) =~= joined_with_tabs(fields.push(cur)).push(9u8) + Seq::<
        u8,
    >::empty());
    assert(joined_with_tabs(fields.push(cur)).push(9u8) + Seq::<u8>::empty() =~= joined_with_tabs(
        fields.push(cur),
    ).push(9u8));
}

/// Extending the field under construction extends the join by that byte.
proof fn lemma_join_last_byte(fields: Seq<Seq<u8>>, cur: Seq<u8>, b: u8)
    ensures
        joined_with_tabs(fields.push(cur.push(b))) == joined_with_tabs(fields.push(cur)).push(b),
{
    if fields.len() == 0 {
        assert(joined_with_tabs(fields.push(cur.push(b))) =~= cur.push(b));
        assert(joined_with_tabs(fields.push(cur)).push(b) =~= cur.push(b));
    } else {
        let a = fields.push(cur.push(b));
        let c = fields.push(cur);
        assert(a.drop_last() =~= fields);
        assert(c.drop_last() =~= fields);
        assert(joined_with_tabs(a) =~= joined_with_tabs(fields).push(9u8) + cur.push(b));
        assert(joined_with_tabs(c).push(b) =~= (joined_with_tabs(fields).push(9u8) + cur).push(b));
        assert((joined_with_tabs(fields).push(9u8) + cur).push(b) =~= joined_with_tabs(
            fields,
        ).push(9u8) + cur.push(b));
    }
}

} // verus!
