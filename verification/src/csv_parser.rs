//! Reading the CSV input: space-stripping, field and number grammars, and
//! the conversion of raw records into transaction events.
//!
//! Monetary amounts are parsed as non-negative decimals and held as
//! fixed-point integers counting ten-thousandths of a unit; fractional
//! digits past the fourth are truncated.

use vstd::prelude::*;

verus! {

use crate::client::Transactions;

/// A fatal input-stream error: the stream itself cannot be trusted.
#[derive(Clone, Copy, Debug, PartialEq, Eq, Structural)]
pub enum InputError {
    /// A record's fields cannot be read as the expected kinds of values.
    MalformedRecord,
    /// A record's `type` field names no known transaction kind.
    UnrecognizedTransactionType,
}

/// `content` with every space byte removed.
pub open spec fn spec_clean(s: Seq<u8>) -> Seq<u8>
    decreases s.len(),
{
    if s.len() == 0 {
        Seq::empty()
    } else if s.last() == 32 {
        spec_clean(s.drop_last())
    } else {
        spec_clean(s.drop_last()).push(s.last())
    }
}

/// Strip spaces from a raw byte stream, leaving other bytes in order.
pub fn clean(content: &Vec<u8>) -> (r: Vec<u8>)
    ensures
        r@ == spec_clean(content@),
{
    let mut out: Vec<u8> = Vec::new();
    let n = content.len();
    let mut i: usize = 0;
    proof {
        assert(content@.take(0int) =~= Seq::<u8>::empty());
    }
    while i < n
        invariant
            n == content@.len(),
            0 <= i <= n,
            out@ == spec_clean(content@.take(i as int)),
        decreases n - i,
    {
        let b = content[i];
        if b != 32 {
            out.push(b);
        }
        i = i + 1;
        proof {
            assert(content@.take(i as int).drop_last() =~= content@.take(i as int - 1));
        }
    }
    proof {
        assert(content@.take(n as int) =~= content@);
    }
    out
}

pub open spec fn is_digit(b: u8) -> bool {
    48 <= b <= 57
}

pub open spec fn all_digits(s: Seq<u8>) -> bool {
    forall|i: int| 0 <= i < s.len() ==> is_digit(#[trigger] s[i])
}

/// The number written by a sequence of decimal digit bytes.
pub open spec fn digits_val(s: Seq<u8>) -> int
    decreases s.len(),
{
    if s.len() == 0 {
        0
    } else {
        digits_val(s.drop_last()) * 10 + (s.last() - 48)
    }
}

pub open spec fn spec_pow10(n: nat) -> int
    decreases n,
{
    if n == 0 {
        1
    } else {
        10 * spec_pow10((n - 1) as nat)
    }
}

/// Digit strings denote values in `[0, 10^len)`.
pub proof fn lemma_digits_val_bound(s: Seq<u8>)
    requires
        all_digits(s),
    ensures
        0 <= digits_val(s) < spec_pow10(s.len()),
    decreases s.len(),
{
    if s.len() > 0 {
        assert(all_digits(s.drop_last())) by {
            assert(forall|i: int|
                0 <= i < s.len() - 1 ==> s.drop_last()[i] == #[trigger] s[i]);
        }
        lemma_digits_val_bound(s.drop_last());
    }
}

/// A longer digit string never denotes a smaller value.
pub proof fn lemma_digits_val_prefix(s: Seq<u8>, i: int)
    requires
        all_digits(s),
        0 <= i <= s.len(),
    ensures
        digits_val(s.take(i)) <= digits_val(s),
    decreases s.len() - i,
{
    if i == s.len() {
        assert(s.take(i) =~= s);
    } else {
        lemma_digits_val_prefix(s, i + 1);
        let t = s.take(i + 1);
        assert(t.drop_last() =~= s.take(i));
        assert(all_digits(s.take(i))) by {
            assert(forall|j: int| 0 <= j < i ==> s.take(i)[j] == #[trigger] s[j]);
        }
        lemma_digits_val_bound(s.take(i));
        assert(is_digit(s[i]));
        assert(t.last() == s[i]);
        assert(digits_val(t) == digits_val(s.take(i)) * 10 + (t.last() - 48));
        assert(digits_val(s.take(i)) <= digits_val(t));
    }
}

/// The value of a non-empty, all-digit string, if it is at most `max`.
pub open spec fn spec_parse_dec(s: Seq<u8>, max: int) -> Option<int> {
    if s.len() > 0 && all_digits(s) && digits_val(s) <= max {
        Some(digits_val(s))
    } else {
        None
    }
}

/// Parse an unsigned decimal of at most `max`; `max` itself must leave
/// room for one more digit in a `u64`.
fn parse_dec(s: &Vec<u8>, max: u64) -> (r: Option<u64>)
    requires
        max <= 1844674407370955160,
    ensures
        match r {
            Some(v) => spec_parse_dec(s@, max as int) == Some(v as int),
            None => spec_parse_dec(s@, max as int) is None,
        },
{
    let n = s.len();
    if n == 0 {
        return None;
    }
    let mut acc: u64 = 0;
    let mut i: usize = 0;
    proof {
        assert(s@.take(0int) =~= Seq::<u8>::empty());
    }
    while i < n
        invariant
            n == s@.len(),
            0 <= i <= n,
            max <= 1844674407370955160,
            all_digits(s@.take(i as int)),
            acc == digits_val(s@.take(i as int)),
            acc <= max,
        decreases n - i,
    {
        let b = s[i];
        if b < 48 || b > 57 {
            return None;
        }
        let d: u64 = (b - 48) as u64;
        let next: u64 = acc * 10 + d;
        proof {
            assert(s@.take(i as int + 1).drop_last() =~= s@.take(i as int));
            assert(forall|j: int|
                0 <= j < i + 1 ==> s@.take(i as int + 1)[j] == #[trigger] s@[j]);
        }
        if next > max {
            proof {
                if all_digits(s@) {
                    lemma_digits_val_prefix(s@, i as int + 1);
                }
            }
            return None;
        }
        acc = next;
        i = i + 1;
    }
    proof {
        assert(s@.take(n as int) =~= s@);
    }
    Some(acc)
}

/// The index of the first occurrence of `b`, if any.
pub open spec fn first_byte_pos(s: Seq<u8>, b: u8) -> Option<int>
    decreases s.len(),
{
    if s.len() == 0 {
        None
    } else if s.first() == b {
        Some(0int)
    } else {
        match first_byte_pos(s.drop_first(), b) {
            Some(i) => Some(i + 1),
            None => None,
        }
    }
}

/// `first_byte_pos` returns the first matching index, or `None` when the
/// byte does not occur.
pub proof fn lemma_first_byte_pos(s: Seq<u8>, b: u8)
    ensures
        match first_byte_pos(s, b) {
            Some(i) => 0 <= i < s.len() && s[i] == b && (forall|j: int|
                0 <= j < i ==> s[j] != b),
            None => forall|j: int| 0 <= j < s.len() ==> s[j] != b,
        },
    decreases s.len(),
{
    if s.len() > 0 && s.first() != b {
        let t = s.drop_first();
        lemma_first_byte_pos(t, b);
        match first_byte_pos(t, b) {
            Some(i) => {
                assert(t[i] == s[i + 1]);
                assert forall|j: int| 0 <= j < i + 1 implies s[j] != b by {
                    if j > 0 {
                        assert(s[j] == t[j - 1]);
                    }
                }
            },
            None => {
                assert forall|j: int| 0 <= j < s.len() implies s[j] != b by {
                    if j > 0 {
                        assert(s[j] == t[j - 1]);
                    }
                }
            },
        }
    }
}

fn find_byte(s: &Vec<u8>, b: u8) -> (r: Option<usize>)
    ensures
        match r {
            Some(i) => first_byte_pos(s@, b) == Some(i as int),
            None => first_byte_pos(s@, b) is None,
        },
{
    let n = s.len();
    let mut i: usize = 0;
    while i < n
        invariant
            n == s@.len(),
            0 <= i <= n,
            forall|j: int| 0 <= j < i ==> s@[j] != b,
        decreases n - i,
    {
        if s[i] == b {
            proof {
                lemma_first_byte_pos(s@, b);
            }
            return Some(i);
        }
        i = i + 1;
    }
    proof {
        lemma_first_byte_pos(s@, b);
    }
    None
}

fn subvec(s: &Vec<u8>, from: usize, to: usize) -> (r: Vec<u8>)
    requires
        from <= to <= s@.len(),
    ensures
        r@ == s@.subrange(from as int, to as int),
{
    let mut out: Vec<u8> = Vec::new();
    let mut i: usize = from;
    while i < to
        invariant
            from <= i <= to <= s@.len(),
            out@ == s@.subrange(from as int, i as int),
        decreases to - i,
    {
        out.push(s[i]);
        proof {
            assert(s@.subrange(from as int, i as int + 1) =~= s@.subrange(
                from as int,
                i as int,
            ).push(s@[i as int]));
        }
        i = i + 1;
    }
    out
}

fn check_digits(s: &Vec<u8>) -> (r: bool)
    ensures
        r == all_digits(s@),
{
    let n = s.len();
    let mut i: usize = 0;
    while i < n
        invariant
            n == s@.len(),
            0 <= i <= n,
            forall|j: int| 0 <= j < i ==> is_digit(#[trigger] s@[j]),
        decreases n - i,
    {
        let b = s[i];
        if b < 48 || b > 57 {
            return false;
        }
        i = i + 1;
    }
    true
}

/// The fixed-point value of a fractional-digit string: the first four
/// digits, scaled to ten-thousandths; further digits are truncated.
pub open spec fn frac_val(f: Seq<u8>) -> int {
    if f.len() == 0 {
        0
    } else if f.len() == 1 {
        digits_val(f) * 1000
    } else if f.len() == 2 {
        digits_val(f) * 100
    } else if f.len() == 3 {
        digits_val(f) * 10
    } else {
        digits_val(f.take(4))
    }
}

/// A fractional part denotes between zero and one unit.
pub proof fn lemma_frac_val_bound(f: Seq<u8>)
    requires
        all_digits(f),
    ensures
        0 <= frac_val(f) < 10000,
{
    if f.len() == 0 {
    } else if f.len() <= 3 {
        lemma_digits_val_bound(f);
        assert(spec_pow10(0) == 1);
        assert(spec_pow10(1) == 10);
        assert(spec_pow10(2) == 100);
        assert(spec_pow10(3) == 1000);
        assert(spec_pow10(4) == 10000);
    } else {
        assert(all_digits(f.take(4))) by {
            assert(forall|j: int| 0 <= j < 4 ==> f.take(4)[j] == #[trigger] f[j]);
        }
        lemma_digits_val_bound(f.take(4));
        assert(spec_pow10(0) == 1);
        assert(spec_pow10(1) == 10);
        assert(spec_pow10(2) == 100);
        assert(spec_pow10(3) == 1000);
        assert(spec_pow10(4) == 10000);
    }
}

/// A non-negative decimal amount in ten-thousandths: digits, optionally a
/// dot and fractional digits, at least one digit in all; `None` when the
/// shape is wrong or the value cannot be held in a `u64`.
pub open spec fn spec_parse_amount(s: Seq<u8>) -> Option<int> {
    match first_byte_pos(s, 46) {
        Some(d) => {
            let ip = s.take(d);
            let fp = s.skip(d + 1);
            if all_digits(ip) && all_digits(fp) && ip.len() + fp.len() > 0 && digits_val(ip)
                * 10000 + frac_val(fp) <= u64::MAX {
                Some(digits_val(ip) * 10000 + frac_val(fp))
            } else {
                None
            }
        },
        None => {
            if s.len() > 0 && all_digits(s) && digits_val(s) * 10000 <= u64::MAX {
                Some(digits_val(s) * 10000)
            } else {
                None
            }
        },
    }
}

/// Parse a non-negative decimal amount into ten-thousandths.
pub fn parse_amount(s: &Vec<u8>) -> (r: Option<u64>)
    ensures
        match r {
            Some(v) => spec_parse_amount(s@) == Some(v as int),
            None => spec_parse_amount(s@) is None,
        },
{
    proof {
        lemma_first_byte_pos(s@, 46);
    }
    match find_byte(s, 46) {
        None => {
            match parse_dec(s, 1844674407370955u64) {
                Some(ip) => Some(ip * 10000),
                None => {
                    proof {
                        if s@.len() > 0 && all_digits(s@) {
                            assert(digits_val(s@) > 1844674407370955);
                            assert(digits_val(s@) * 10000 > u64::MAX as int);
                        }
                    }
                    None
                },
            }
        },
        Some(d) => {
            let n = s.len();
            proof {
                assert(first_byte_pos(s@, 46) == Some(d as int));
                assert(d < n);
            }
            let ipart = subvec(s, 0, d);
            let fpart = subvec(s, d + 1, n);
            proof {
                assert(ipart@ =~= s@.take(d as int));
                assert(fpart@ =~= s@.skip(d as int + 1));
            }
            if ipart.len() == 0 && fpart.len() == 0 {
                return None;
            }
            let ip: u64 = if ipart.len() == 0 {
                0
            } else {
                match parse_dec(&ipart, 1844674407370955u64) {
                    Some(v) => v,
                    None => {
                        proof {
                            if all_digits(ipart@) && all_digits(fpart@) {
                                assert(digits_val(ipart@) > 1844674407370955);
                                assert(digits_val(ipart@) * 10000 > u64::MAX as int);
                                lemma_frac_val_bound(fpart@);
                            }
                        }
                        return None;
                    },
                }
            };
            if !check_digits(&fpart) {
                return None;
            }
            proof {
                lemma_digits_val_bound(fpart@);
                if fpart@.len() >= 4 {
                    assert(all_digits(fpart@.take(4))) by {
                        assert(forall|j: int|
                            0 <= j < 4 ==> fpart@.take(4)[j] == #[trigger] fpart@[j]);
                    }
                    lemma_digits_val_bound(fpart@.take(4));
                }
                assert(spec_pow10(0) == 1);
                assert(spec_pow10(1) == 10);
                assert(spec_pow10(2) == 100);
                assert(spec_pow10(3) == 1000);
                assert(spec_pow10(4) == 10000);
            }
            let flen = fpart.len();
            let fv: u64 = if flen == 0 {
                0
            } else if flen == 1 {
                match parse_dec(&fpart, 9) {
                    Some(v) => v * 1000,
                    None => {
                        return None;
                    },
                }
            } else if flen == 2 {
                match parse_dec(&fpart, 99) {
                    Some(v) => v * 100,
                    None => {
                        return None;
                    },
                }
            } else if flen == 3 {
                match parse_dec(&fpart, 999) {
                    Some(v) => v * 10,
                    None => {
                        return None;
                    },
                }
            } else {
                let f4 = subvec(&fpart, 0, 4);
                proof {
                    assert(f4@ =~= fpart@.take(4));
                }
                match parse_dec(&f4, 9999) {
                    Some(v) => v,
                    None => {
                        return None;
                    },
                }
            };
            let base: u64 = ip * 10000;
            if fv > u64::MAX - base {
                return None;
            }
            Some(base + fv)
        },
    }
}

pub open spec fn lower_byte(b: u8) -> u8 {
    if 65 <= b <= 90 {
        (b + 32) as u8
    } else {
        b
    }
}

/// ASCII lower-casing of a byte string.
pub open spec fn lower_seq(s: Seq<u8>) -> Seq<u8> {
    s.map_values(|b: u8| lower_byte(b))
}

fn lower_bytes(s: &Vec<u8>) -> (r: Vec<u8>)
    ensures
        r@ == lower_seq(s@),
{
    let n = s.len();
    let mut out: Vec<u8> = Vec::new();
    let mut i: usize = 0;
    while i < n
        invariant
            n == s@.len(),
            0 <= i <= n,
            out@.len() == i,
            forall|j: int| 0 <= j < i ==> out@[j] == lower_byte(#[trigger] s@[j]),
        decreases n - i,
    {
        let b = s[i];
        if b >= 65 && b <= 90 {
            out.push(b + 32);
        } else {
            out.push(b);
        }
        i = i + 1;
    }
    proof {
        assert(out@ =~= lower_seq(s@));
    }
    out
}

fn bytes_eq(a: &Vec<u8>, b: &Vec<u8>) -> (r: bool)
    ensures
        r == (a@ == b@),
{
    let n = a.len();
    if n != b.len() {
        return false;
    }
    let mut i: usize = 0;
    while i < n
        invariant
            n == a@.len() == b@.len(),
            0 <= i <= n,
            forall|j: int| 0 <= j < i ==> a@[j] == b@[j],
        decreases n - i,
    {
        if a[i] != b[i] {
            return false;
        }
        i = i + 1;
    }
    proof {
        assert(a@ =~= b@);
    }
    true
}

pub open spec fn kw_type() -> Seq<u8> {
    seq![116u8, 121u8, 112u8, 101u8]
}

pub open spec fn kw_client() -> Seq<u8> {
    seq![99u8, 108u8, 105u8, 101u8, 110u8, 116u8]
}

pub open spec fn kw_tx() -> Seq<u8> {
    seq![116u8, 120u8]
}

pub open spec fn kw_amount() -> Seq<u8> {
    seq![97u8, 109u8, 111u8, 117u8, 110u8, 116u8]
}

pub open spec fn kw_deposit() -> Seq<u8> {
    seq![100u8, 101u8, 112u8, 111u8, 115u8, 105u8, 116u8]
}

pub open spec fn kw_withdrawal() -> Seq<u8> {
    seq![119u8, 105u8, 116u8, 104u8, 100u8, 114u8, 97u8, 119u8, 97u8, 108u8]
}

pub open spec fn kw_dispute() -> Seq<u8> {
    seq![100u8, 105u8, 115u8, 112u8, 117u8, 116u8, 101u8]
}

pub open spec fn kw_resolve() -> Seq<u8> {
    seq![114u8, 101u8, 115u8, 111u8, 108u8, 118u8, 101u8]
}

pub open spec fn kw_chargeback() -> Seq<u8> {
    seq![99u8, 104u8, 97u8, 114u8, 103u8, 101u8, 98u8, 97u8, 99u8, 107u8]
}

/// The mathematical content of one raw input record.
#[verifier::ext_equal]
pub struct RecordModel {
    pub record_type: Seq<u8>,
    pub client_id: u16,
    pub tx_id: u32,
    pub amount: Option<u64>,
}

/// One raw input record: the `type` field as bytes, the client and tx ids,
/// and the amount in ten-thousandths where the record carried one.
#[derive(Debug, PartialEq)]
pub struct Record {
    pub record_type: Vec<u8>,
    pub client_id: u16,
    pub tx_id: u32,
    pub amount: Option<u64>,
}

impl View for Record {
    type V = RecordModel;

    open spec fn view(&self) -> RecordModel {
        RecordModel {
            record_type: self.record_type@,
            client_id: self.client_id,
            tx_id: self.tx_id,
            amount: self.amount,
        }
    }
}

impl Record {
    pub fn new(record_type: Vec<u8>, client_id: u16, tx_id: u32, amount: Option<u64>) -> (r:
        Record)
        ensures
            r@ == (RecordModel { record_type: record_type@, client_id, tx_id, amount }),
    {
        Record { record_type, client_id, tx_id, amount }
    }
}

/// The index of the first field equal to `name`, if any.
pub open spec fn first_field_pos(row: Seq<Seq<u8>>, name: Seq<u8>) -> Option<int>
    decreases row.len(),
{
    if row.len() == 0 {
        None
    } else if row.first() == name {
        Some(0int)
    } else {
        match first_field_pos(row.drop_first(), name) {
            Some(i) => Some(i + 1),
            None => None,
        }
    }
}

/// `first_field_pos` returns the first matching index, or `None` when the
/// name does not occur.
pub proof fn lemma_first_field_pos(row: Seq<Seq<u8>>, name: Seq<u8>)
    ensures
        match first_field_pos(row, name) {
            Some(i) => 0 <= i < row.len() && row[i] == name && (forall|j: int|
                0 <= j < i ==> row[j] != name),
            None => forall|j: int| 0 <= j < row.len() ==> row[j] != name,
        },
    decreases row.len(),
{
    if row.len() > 0 && row.first() != name {
        let t = row.drop_first();
        lemma_first_field_pos(t, name);
        match first_field_pos(t, name) {
            Some(i) => {
                assert(t[i] == row[i + 1]);
                assert forall|j: int| 0 <= j < i + 1 implies row[j] != name by {
                    if j > 0 {
                        assert(row[j] == t[j - 1]);
                    }
                }
            },
            None => {
                assert forall|j: int| 0 <= j < row.len() implies row[j] != name by {
                    if j > 0 {
                        assert(row[j] == t[j - 1]);
                    }
                }
            },
        }
    }
}

fn find_field(row: &Vec<Vec<u8>>, name: &Vec<u8>) -> (r: Option<usize>)
    ensures
        match r {
            Some(i) => first_field_pos(row.deep_view(), name@) == Some(i as int),
            None => first_field_pos(row.deep_view(), name@) is None,
        },
{
    let n = row.len();
    let mut i: usize = 0;
    while i < n
        invariant
            n == row@.len(),
            0 <= i <= n,
            forall|j: int| 0 <= j < i ==> row.deep_view()[j] != name@,
        decreases n - i,
    {
        if bytes_eq(&row[i], name) {
            proof {
                assert(row.deep_view()[i as int] =~= row@[i as int]@);
                lemma_first_field_pos(row.deep_view(), name@);
            }
            return Some(i);
        }
        proof {
            assert(row.deep_view()[i as int] =~= row@[i as int]@);
        }
        i = i + 1;
    }
    proof {
        lemma_first_field_pos(row.deep_view(), name@);
    }
    None
}

/// Read one data row through the header's column positions: `type` bytes,
/// a 16-bit client id, a 32-bit tx id, and an optional amount. A missing or
/// empty amount field is `None`; everything else must parse.
pub open spec fn spec_parse_record(
    row: Seq<Seq<u8>>,
    ti: int,
    ci: int,
    xi: int,
    ai: int,
) -> Result<RecordModel, InputError> {
    if !(0 <= ti < row.len() && 0 <= ci < row.len() && 0 <= xi < row.len()) {
        Err(InputError::MalformedRecord)
    } else {
        match (spec_parse_dec(row[ci], u16::MAX as int), spec_parse_dec(row[xi], u32::MAX as int)) {
            (Some(cv), Some(xv)) => {
                if 0 <= ai < row.len() && row[ai].len() > 0 {
                    match spec_parse_amount(row[ai]) {
                        Some(av) => Ok(RecordModel {
                            record_type: row[ti],
                            client_id: cv as u16,
                            tx_id: xv as u32,
                            amount: Some(av as u64),
                        }),
                        None => Err(InputError::MalformedRecord),
                    }
                } else {
                    Ok(RecordModel {
                        record_type: row[ti],
                        client_id: cv as u16,
                        tx_id: xv as u32,
                        amount: None,
                    })
                }
            },
            _ => Err(InputError::MalformedRecord),
        }
    }
}

/// Read one data row through the given column positions.
pub fn parse_record(row: &Vec<Vec<u8>>, ti: usize, ci: usize, xi: usize, ai: usize) -> (r: Result<
    Record,
    InputError,
>)
    ensures
        match r {
            Ok(rec) => spec_parse_record(row.deep_view(), ti as int, ci as int, xi as int, ai as int)
                == Ok::<RecordModel, InputError>(rec@),
            Err(e) => spec_parse_record(row.deep_view(), ti as int, ci as int, xi as int, ai as int)
                == Err::<RecordModel, InputError>(e),
        },
{
    let len = row.len();
    proof {
        assert(row.deep_view().len() == row@.len());
    }
    if !(ti < len && ci < len && xi < len) {
        return Err(InputError::MalformedRecord);
    }
    proof {
        assert(row.deep_view()[ti as int] =~= row@[ti as int]@);
        assert(row.deep_view()[ci as int] =~= row@[ci as int]@);
        assert(row.deep_view()[xi as int] =~= row@[xi as int]@);
    }
    let cv = match parse_dec(&row[ci], 65535) {
        Some(v) => v,
        None => {
            return Err(InputError::MalformedRecord);
        },
    };
    let xv = match parse_dec(&row[xi], 4294967295) {
        Some(v) => v,
        None => {
            return Err(InputError::MalformedRecord);
        },
    };
    let amount: Option<u64> = if ai < len && row[ai].len() > 0 {
        proof {
            assert(row.deep_view()[ai as int] =~= row@[ai as int]@);
        }
        match parse_amount(&row[ai]) {
            Some(a) => Some(a),
            None => {
                return Err(InputError::MalformedRecord);
            },
        }
    } else {
        if ai < len {
            proof {
                assert(row.deep_view()[ai as int] =~= row@[ai as int]@);
            }
        }
        None
    };
    let tlen = row[ti].len();
    let tfield = subvec(&row[ti], 0, tlen);
    proof {
        assert(tfield@ =~= row@[ti as int]@);
    }
    let rec = Record { record_type: tfield, client_id: cv as u16, tx_id: xv as u32, amount };
    proof {
        let sr = spec_parse_record(row.deep_view(), ti as int, ci as int, xi as int, ai as int);
        assert(sr is Ok && rec@ =~= sr->Ok_0);
    }
    Ok(rec)
}

/// Turn one record into its transaction event. The `type` field is matched
/// case-insensitively; deposits and withdrawals must carry an amount; an
/// unknown type is a fatal error.
pub open spec fn spec_from_record(r: RecordModel) -> Result<Transactions, InputError> {
    let k = lower_seq(r.record_type);
    if k == kw_deposit() {
        match r.amount {
            Some(a) => Ok(Transactions::Deposit(r.client_id, r.tx_id, a)),
            None => Err(InputError::MalformedRecord),
        }
    } else if k == kw_withdrawal() {
        match r.amount {
            Some(a) => Ok(Transactions::Withdrawal(r.client_id, r.tx_id, a)),
            None => Err(InputError::MalformedRecord),
        }
    } else if k == kw_dispute() {
        Ok(Transactions::Dispute(r.client_id, r.tx_id))
    } else if k == kw_resolve() {
        Ok(Transactions::Resolve(r.client_id, r.tx_id))
    } else if k == kw_chargeback() {
        Ok(Transactions::Chargeback(r.client_id, r.tx_id))
    } else {
        Err(InputError::UnrecognizedTransactionType)
    }
}

impl Transactions {
    /// Build the event a raw record describes.
    pub fn from_record(r: &Record) -> (res: Result<Transactions, InputError>)
        ensures
            res == spec_from_record(r@),
    {
        let low = lower_bytes(&r.record_type);
        let kwd: Vec<u8> = vec![100u8, 101u8, 112u8, 111u8, 115u8, 105u8, 116u8];
        let kww: Vec<u8> = vec![
            119u8,
            105u8,
            116u8,
            104u8,
            100u8,
            114u8,
            97u8,
            119u8,
            97u8,
            108u8,
        ];
        let kwi: Vec<u8> = vec![100u8, 105u8, 115u8, 112u8, 117u8, 116u8, 101u8];
        let kwr: Vec<u8> = vec![114u8, 101u8, 115u8, 111u8, 108u8, 118u8, 101u8];
        let kwc: Vec<u8> = vec![
            99u8,
            104u8,
            97u8,
            114u8,
            103u8,
            101u8,
            98u8,
            97u8,
            99u8,
            107u8,
        ];
        proof {
            assert(kwd@ =~= kw_deposit());
            assert(kww@ =~= kw_withdrawal());
            assert(kwi@ =~= kw_dispute());
            assert(kwr@ =~= kw_resolve());
            assert(kwc@ =~= kw_chargeback());
        }
        if bytes_eq(&low, &kwd) {
            match r.amount {
                Some(a) => Ok(Transactions::Deposit(r.client_id, r.tx_id, a)),
                None => Err(InputError::MalformedRecord),
            }
        } else if bytes_eq(&low, &kww) {
            match r.amount {
                Some(a) => Ok(Transactions::Withdrawal(r.client_id, r.tx_id, a)),
                None => Err(InputError::MalformedRecord),
            }
        } else if bytes_eq(&low, &kwi) {
            Ok(Transactions::Dispute(r.client_id, r.tx_id))
        } else if bytes_eq(&low, &kwr) {
            Ok(Transactions::Resolve(r.client_id, r.tx_id))
        } else if bytes_eq(&low, &kwc) {
            Ok(Transactions::Chargeback(r.client_id, r.tx_id))
        } else {
            Err(InputError::UnrecognizedTransactionType)
        }
    }
}

/// The models of a sequence of records.
pub open spec fn record_views(s: Seq<Record>) -> Seq<RecordModel> {
    s.map_values(|r: Record| r@)
}

/// Read every data row through the header's column positions; the first
/// row that cannot be read decides the error.
pub open spec fn spec_records_data(
    data: Seq<Seq<Seq<u8>>>,
    ti: int,
    ci: int,
    xi: int,
    ai: int,
) -> Result<Seq<RecordModel>, InputError>
    decreases data.len(),
{
    if data.len() == 0 {
        Ok(Seq::empty())
    } else {
        match spec_records_data(data.drop_last(), ti, ci, xi, ai) {
            Err(e) => Err(e),
            Ok(recs) => match spec_parse_record(data.last(), ti, ci, xi, ai) {
                Err(e) => Err(e),
                Ok(rec) => Ok(recs.push(rec)),
            },
        }
    }
}

/// An error in a prefix of the data decides the whole read.
pub proof fn lemma_records_data_err(
    data: Seq<Seq<Seq<u8>>>,
    ti: int,
    ci: int,
    xi: int,
    ai: int,
    k: int,
)
    requires
        0 <= k <= data.len(),
        spec_records_data(data.take(k), ti, ci, xi, ai) is Err,
    ensures
        spec_records_data(data, ti, ci, xi, ai) == spec_records_data(data.take(k), ti, ci, xi, ai),
    decreases data.len() - k,
{
    if k == data.len() {
        assert(data.take(k) =~= data);
    } else {
        assert(data.take(k + 1).drop_last() =~= data.take(k));
        lemma_records_data_err(data, ti, ci, xi, ai, k + 1);
    }
}

/// All records of a split CSV stream: the first row is the header and must
/// name the four columns; an empty stream has no records.
pub open spec fn spec_records_of_rows(rows: Seq<Seq<Seq<u8>>>) -> Result<
    Seq<RecordModel>,
    InputError,
> {
    if rows.len() == 0 {
        Ok(Seq::empty())
    } else {
        match (
            first_field_pos(rows.first(), kw_type()),
            first_field_pos(rows.first(), kw_client()),
            first_field_pos(rows.first(), kw_tx()),
            first_field_pos(rows.first(), kw_amount()),
        ) {
            (Some(ti), Some(ci), Some(xi), Some(ai)) => spec_records_data(
                rows.drop_first(),
                ti,
                ci,
                xi,
                ai,
            ),
            _ => Err(InputError::MalformedRecord),
        }
    }
}

/// Read the records of already-split CSV rows, header first.
pub fn parse_records(rows: &Vec<Vec<Vec<u8>>>) -> (r: Result<Vec<Record>, InputError>)
    ensures
        match r {
            Ok(v) => spec_records_of_rows(rows.deep_view()) == Ok::<Seq<RecordModel>, InputError>(
                record_views(v@),
            ),
            Err(e) => spec_records_of_rows(rows.deep_view()) == Err::<Seq<RecordModel>, InputError>(
                e,
            ),
        },
{
    let nrows = rows.len();
    proof {
        assert(rows.deep_view().len() == rows@.len());
    }
    if nrows == 0 {
        let out: Vec<Record> = Vec::new();
        proof {
            assert(record_views(out@) =~= Seq::<RecordModel>::empty());
        }
        return Ok(out);
    }
    let nm_type: Vec<u8> = vec![116u8, 121u8, 112u8, 101u8];
    let nm_client: Vec<u8> = vec![99u8, 108u8, 105u8, 101u8, 110u8, 116u8];
    let nm_tx: Vec<u8> = vec![116u8, 120u8];
    let nm_amount: Vec<u8> = vec![97u8, 109u8, 111u8, 117u8, 110u8, 116u8];
    proof {
        assert(nm_type@ =~= kw_type());
        assert(nm_client@ =~= kw_client());
        assert(nm_tx@ =~= kw_tx());
        assert(nm_amount@ =~= kw_amount());
        assert(rows.deep_view().first() =~= rows@[0int].deep_view());
    }
    let header = &rows[0];
    let ti = match find_field(header, &nm_type) {
        Some(i) => i,
        None => {
            return Err(InputError::MalformedRecord);
        },
    };
    let ci = match find_field(header, &nm_client) {
        Some(i) => i,
        None => {
            return Err(InputError::MalformedRecord);
        },
    };
    let xi = match find_field(header, &nm_tx) {
        Some(i) => i,
        None => {
            return Err(InputError::MalformedRecord);
        },
    };
    let ai = match find_field(header, &nm_amount) {
        Some(i) => i,
        None => {
            return Err(InputError::MalformedRecord);
        },
    };
    let ghost data = rows.deep_view().drop_first();
    let mut out: Vec<Record> = Vec::new();
    let mut i: usize = 1;
    proof {
        assert(data.take(0int) =~= Seq::<Seq<Seq<u8>>>::empty());
        assert(record_views(out@) =~= Seq::<RecordModel>::empty());
    }
    while i < nrows
        invariant
            1 <= i <= nrows,
            nrows == rows@.len(),
            rows.deep_view().len() == nrows,
            data == rows.deep_view().drop_first(),
            first_field_pos(rows.deep_view().first(), kw_type()) == Some(ti as int),
            first_field_pos(rows.deep_view().first(), kw_client()) == Some(ci as int),
            first_field_pos(rows.deep_view().first(), kw_tx()) == Some(xi as int),
            first_field_pos(rows.deep_view().first(), kw_amount()) == Some(ai as int),
            spec_records_data(data.take(i as int - 1), ti as int, ci as int, xi as int, ai as int)
                == Ok::<Seq<RecordModel>, InputError>(record_views(out@)),
        decreases nrows - i,
    {
        proof {
            assert(rows.deep_view()[i as int] =~= rows@[i as int].deep_view());
            assert(data[i as int - 1] == rows.deep_view()[i as int]);
            assert(data.take(i as int).drop_last() =~= data.take(i as int - 1));
            assert(data.take(i as int).last() == data[i as int - 1]);
        }
        match parse_record(&rows[i], ti, ci, xi, ai) {
            Ok(rec) => {
                let ghost out_old = out@;
                out.push(rec);
                proof {
                    assert(record_views(out@) =~= record_views(out_old).push(rec@));
                }
            },
            Err(e) => {
                proof {
                    assert(spec_records_data(
                        data.take(i as int),
                        ti as int,
                        ci as int,
                        xi as int,
                        ai as int,
                    ) == Err::<Seq<RecordModel>, InputError>(e));
                    lemma_records_data_err(
                        data,
                        ti as int,
                        ci as int,
                        xi as int,
                        ai as int,
                        i as int,
                    );
                    assert(rows.deep_view().drop_first() =~= data);
                }
                return Err(e);
            },
        }
        i = i + 1;
    }
    proof {
        assert(data.take(nrows as int - 1) =~= data);
    }
    Ok(out)
}

/// Turn records into events; the first bad record decides the error.
pub open spec fn spec_events_of(recs: Seq<RecordModel>) -> Result<Seq<Transactions>, InputError>
    decreases recs.len(),
{
    if recs.len() == 0 {
        Ok(Seq::empty())
    } else {
        match spec_events_of(recs.drop_last()) {
            Err(e) => Err(e),
            Ok(evs) => match spec_from_record(recs.last()) {
                Err(e) => Err(e),
                Ok(tx) => Ok(evs.push(tx)),
            },
        }
    }
}

/// An error in a prefix of the records decides the whole conversion.
pub proof fn lemma_events_of_err(recs: Seq<RecordModel>, k: int)
    requires
        0 <= k <= recs.len(),
        spec_events_of(recs.take(k)) is Err,
    ensures
        spec_events_of(recs) == spec_events_of(recs.take(k)),
    decreases recs.len() - k,
{
    if k == recs.len() {
        assert(recs.take(k) =~= recs);
    } else {
        assert(recs.take(k + 1).drop_last() =~= recs.take(k));
        lemma_events_of_err(recs, k + 1);
    }
}

/// Convert a record list into transaction events, in order.
pub fn records_to_events(recs: &Vec<Record>) -> (r: Result<Vec<Transactions>, InputError>)
    ensures
        match r {
            Ok(v) => spec_events_of(record_views(recs@)) == Ok::<Seq<Transactions>, InputError>(v@),
            Err(e) => spec_events_of(record_views(recs@)) == Err::<Seq<Transactions>, InputError>(
                e,
            ),
        },
{
    let n = recs.len();
    let ghost rv = record_views(recs@);
    let mut out: Vec<Transactions> = Vec::new();
    let mut i: usize = 0;
    proof {
        assert(rv.take(0int) =~= Seq::<RecordModel>::empty());
    }
    while i < n
        invariant
            0 <= i <= n,
            n == recs@.len(),
            rv == record_views(recs@),
            spec_events_of(rv.take(i as int)) == Ok::<Seq<Transactions>, InputError>(out@),
        decreases n - i,
    {
        proof {
            assert(rv[i as int] == recs@[i as int]@);
            assert(rv.take(i as int + 1).drop_last() =~= rv.take(i as int));
            assert(rv.take(i as int + 1).last() == rv[i as int]);
        }
        match Transactions::from_record(&recs[i]) {
            Ok(tx) => {
                out.push(tx);
            },
            Err(e) => {
                proof {
                    lemma_events_of_err(rv, i as int + 1);
                }
                return Err(e);
            },
        }
        i = i + 1;
    }
    proof {
        assert(rv.take(n as int) =~= rv);
    }
    Ok(out)
}

/// What the CSV reader makes of a byte stream: its records as byte fields,
/// or nothing when the stream cannot be read. The result is a function of
/// the bytes alone.
pub uninterp spec fn csv_rows_of(data: Seq<u8>) -> Option<Seq<Seq<Seq<u8>>>>;

/// Relies on `csv::Reader` (headers off, flexible record lengths): it
/// splits CSV text into records of byte fields, skipping blank lines, and
/// reads the same bytes the same way every time.
#[verifier::external_body]
fn csv_split(data: &Vec<u8>) -> (r: Option<Vec<Vec<Vec<u8>>>>)
    ensures
        r.deep_view() == csv_rows_of(data@),
{
    let mut rdr = csv::ReaderBuilder::new().has_headers(false).flexible(true).from_reader(
        data.as_slice(),
    );
    let mut rows: Vec<Vec<Vec<u8>>> = Vec::new();
    for rec in rdr.byte_records() {
        match rec {
            Ok(r) => rows.push(r.iter().map(|f| f.to_vec()).collect()),
            Err(_) => return None,
        }
    }
    Some(rows)
}

/// What reading a raw CSV byte stream yields: records, or a fatal error.
pub open spec fn spec_read_records(data: Seq<u8>) -> Result<Seq<RecordModel>, InputError> {
    match csv_rows_of(data) {
        None => Err(InputError::MalformedRecord),
        Some(rows) => spec_records_of_rows(rows),
    }
}

/// Read a whole CSV byte stream into records, header first.
pub fn read_records(data: &Vec<u8>) -> (r: Result<Vec<Record>, InputError>)
    ensures
        match r {
            Ok(v) => spec_read_records(data@) == Ok::<Seq<RecordModel>, InputError>(
                record_views(v@),
            ),
            Err(e) => spec_read_records(data@) == Err::<Seq<RecordModel>, InputError>(e),
        },
{
    match csv_split(data) {
        None => Err(InputError::MalformedRecord),
        Some(rows) => parse_records(&rows),
    }
}

} // verus!
