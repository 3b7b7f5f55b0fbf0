//! Per-client account ledger: the state machine that applies transaction
//! events to one client's balances.
//!
//! Balances are fixed-point integers counting ten-thousandths of a currency
//! unit. `available` and `total` may go negative (a dispute subtracts from
//! `available` without a sufficiency check, and a chargeback subtracts from
//! `total`); `i64` holds them. Updates that would leave the `i64` range are
//! rejected whole, so an account is never left half-changed.

use vstd::prelude::*;
use std::collections::HashMap;
use std::collections::HashSet;

verus! {

/// A transaction event addressed to one client. Amount-bearing events carry
/// `(client, tx_id, amount)`; the others carry `(client, tx_id)` where
/// `tx_id` references a prior deposit or withdrawal.
#[derive(Clone, Copy, Debug, PartialEq, Eq, Structural)]
pub enum Transactions {
    Deposit(u16, u32, u64),
    Withdrawal(u16, u32, u64),
    Dispute(u16, u32),
    Resolve(u16, u32),
    Chargeback(u16, u32),
}

/// Why an event was rejected. A rejected event changes nothing.
#[derive(Clone, Copy, Debug, PartialEq, Eq, Structural)]
pub enum LedgerError {
    /// A deposit or withdrawal reused a tx id already in the ledger.
    DuplicateTransaction,
    /// A withdrawal asked for more than `available`.
    InsufficientFunds,
    /// A dispute referenced a withdrawal, which cannot be disputed.
    NotDisputable,
    /// The update would push a balance outside the `i64` range.
    BalanceOutOfRange,
}

/// The mathematical state of one account.
#[verifier::ext_equal]
pub struct ClientModel {
    pub id: u16,
    pub available: int,
    pub held: int,
    pub total: int,
    pub locked: bool,
    /// Every deposit and withdrawal accepted so far, keyed by tx id.
    pub ledger: Map<u32, Transactions>,
    /// Tx ids currently under dispute.
    pub disputed: Set<u32>,
}

pub open spec fn tx_client(tx: Transactions) -> u16 {
    match tx {
        Transactions::Deposit(c, _, _) => c,
        Transactions::Withdrawal(c, _, _) => c,
        Transactions::Dispute(c, _) => c,
        Transactions::Resolve(c, _) => c,
        Transactions::Chargeback(c, _) => c,
    }
}

pub open spec fn tx_is_deposit(tx: Transactions) -> bool {
    tx matches Transactions::Deposit(_, _, _)
}

/// The amount carried by a deposit or withdrawal.
pub open spec fn tx_amount(tx: Transactions) -> u64 {
    match tx {
        Transactions::Deposit(_, _, a) => a,
        Transactions::Withdrawal(_, _, a) => a,
        _ => 0,
    }
}

pub open spec fn in_i64(v: int) -> bool {
    i64::MIN <= v <= i64::MAX
}

/// A fresh account: zero balances, unlocked, empty history.
pub open spec fn client_init(id: u16) -> ClientModel {
    ClientModel {
        id,
        available: 0,
        held: 0,
        total: 0,
        locked: false,
        ledger: Map::empty(),
        disputed: Set::empty(),
    }
}

/// The account transition function: the state after applying `tx` to `c`,
/// and the per-event outcome. A rejected event leaves the state exactly
/// as it was.
pub open spec fn spec_apply(c: ClientModel, tx: Transactions) -> (ClientModel, Result<
    (),
    LedgerError,
>) {
    match tx {
        Transactions::Deposit(_, tx_id, amount) => {
            if c.ledger.contains_key(tx_id) {
                (c, Err(LedgerError::DuplicateTransaction))
            } else if !in_i64(c.available + amount) || !in_i64(c.total + amount) {
                (c, Err(LedgerError::BalanceOutOfRange))
            } else {
                (
                    ClientModel {
                        available: c.available + amount,
                        total: c.total + amount,
                        ledger: c.ledger.insert(tx_id, tx),
                        ..c
                    },
                    Ok(()),
                )
            }
        },
        Transactions::Withdrawal(_, tx_id, amount) => {
            if c.available < amount {
                (c, Err(LedgerError::InsufficientFunds))
            } else if c.ledger.contains_key(tx_id) {
                (c, Err(LedgerError::DuplicateTransaction))
            } else if !in_i64(c.available - amount) || !in_i64(c.total - amount) {
                (c, Err(LedgerError::BalanceOutOfRange))
            } else {
                (
                    ClientModel {
                        available: c.available - amount,
                        total: c.total - amount,
                        ledger: c.ledger.insert(tx_id, tx),
                        ..c
                    },
                    Ok(()),
                )
            }
        },
        Transactions::Dispute(_, tx_id) => {
            if !c.ledger.contains_key(tx_id) {
                (c, Ok(()))
            } else if c.disputed.contains(tx_id) {
                (c, Ok(()))
            } else if !tx_is_deposit(c.ledger[tx_id]) {
                (c, Err(LedgerError::NotDisputable))
            } else {
                let a = tx_amount(c.ledger[tx_id]);
                if !in_i64(c.available - a) || !in_i64(c.held + a) {
                    (c, Err(LedgerError::BalanceOutOfRange))
                } else {
                    (
                        ClientModel {
                            available: c.available - a,
                            held: c.held + a,
                            disputed: c.disputed.insert(tx_id),
                            ..c
                        },
                        Ok(()),
                    )
                }
            }
        },
        Transactions::Resolve(_, tx_id) => {
            if !c.disputed.contains(tx_id) {
                (c, Ok(()))
            } else if c.ledger.contains_key(tx_id) && tx_is_deposit(c.ledger[tx_id]) {
                let a = tx_amount(c.ledger[tx_id]);
                if !in_i64(c.held - a) || !in_i64(c.available + a) {
                    (c, Err(LedgerError::BalanceOutOfRange))
                } else {
                    (
                        ClientModel {
                            held: c.held - a,
                            available: c.available + a,
                            disputed: c.disputed.remove(tx_id),
                            ..c
                        },
                        Ok(()),
                    )
                }
            } else {
                (ClientModel { disputed: c.disputed.remove(tx_id), ..c }, Ok(()))
            }
        },
        Transactions::Chargeback(_, tx_id) => {
            if !c.disputed.contains(tx_id) {
                (c, Ok(()))
            } else if c.ledger.contains_key(tx_id) && tx_is_deposit(c.ledger[tx_id]) {
                let a = tx_amount(c.ledger[tx_id]);
                if !in_i64(c.held - a) || !in_i64(c.total - a) {
                    (c, Err(LedgerError::BalanceOutOfRange))
                } else {
                    (
                        ClientModel {
                            held: c.held - a,
                            total: c.total - a,
                            locked: true,
                            disputed: c.disputed.remove(tx_id),
                            ..c
                        },
                        Ok(()),
                    )
                }
            } else {
                (ClientModel { disputed: c.disputed.remove(tx_id), ..c }, Ok(()))
            }
        },
    }
}

/// `total` always equals `available` plus `held`.
pub open spec fn balanced(c: ClientModel) -> bool {
    c.total == c.available + c.held
}

/// Law: applying any event to a balanced account leaves it balanced, whether
/// the event was accepted or rejected.
pub proof fn lemma_apply_preserves_balance(c: ClientModel, tx: Transactions)
    requires
        balanced(c),
    ensures
        balanced(spec_apply(c, tx).0),
{
}

/// Law: every tx id under dispute refers to an entry of the ledger, and the
/// ledger only ever grows; applying any event preserves both.
pub proof fn lemma_apply_preserves_dispute_refs(c: ClientModel, tx: Transactions)
    requires
        forall|t: u32| c.disputed.contains(t) ==> c.ledger.contains_key(t),
    ensures
        forall|t: u32|
            spec_apply(c, tx).0.disputed.contains(t) ==> spec_apply(c, tx).0.ledger.contains_key(t),
        forall|t: u32| c.ledger.contains_key(t) ==> spec_apply(c, tx).0.ledger.contains_key(t),
{
}

/// Law: a second Resolve or Chargeback for the same tx id, right after a
/// first, changes nothing: once the id has left the disputed set (or was
/// never in it), both events are no-ops.
pub proof fn lemma_resolve_chargeback_idempotent(c: ClientModel, tx: Transactions)
    requires
        tx matches Transactions::Resolve(_, _) || tx matches Transactions::Chargeback(_, _),
    ensures
        spec_apply(spec_apply(c, tx).0, tx).0 == spec_apply(c, tx).0,
{
    let c1 = spec_apply(c, tx).0;
    assert(spec_apply(c1, tx).0 =~= c1);
}

/// Law: disputing a deposit and then resolving that dispute restores the
/// account to exactly its prior state. Holds whenever the dispute itself is
/// accepted: the deposit is in the ledger and not already under dispute, the
/// moved amount keeps both balances in range, and the account's balances are
/// representable.
pub proof fn lemma_dispute_resolve_round_trip(c: ClientModel, client_id: u16, tx_id: u32)
    requires
        in_i64(c.available),
        in_i64(c.held),
        c.ledger.contains_key(tx_id),
        tx_is_deposit(c.ledger[tx_id]),
        !c.disputed.contains(tx_id),
        in_i64(c.available - tx_amount(c.ledger[tx_id])),
        in_i64(c.held + tx_amount(c.ledger[tx_id])),
    ensures
        spec_apply(c, Transactions::Dispute(client_id, tx_id)).1 == Ok::<(), LedgerError>(()),
        spec_apply(
            spec_apply(c, Transactions::Dispute(client_id, tx_id)).0,
            Transactions::Resolve(client_id, tx_id),
        ).0 == c,
{
    let c1 = spec_apply(c, Transactions::Dispute(client_id, tx_id)).0;
    let c2 = spec_apply(c1, Transactions::Resolve(client_id, tx_id)).0;
    assert(c2 =~= c);
}

/// Law: a Dispute, Resolve, or Chargeback that references a tx id the
/// account has never seen changes nothing and reports success.
pub proof fn lemma_unknown_reference_is_noop(c: ClientModel, client_id: u16, tx_id: u32)
    requires
        !c.ledger.contains_key(tx_id),
        !c.disputed.contains(tx_id),
    ensures
        spec_apply(c, Transactions::Dispute(client_id, tx_id)) == (c, Ok::<(), LedgerError>(())),
        spec_apply(c, Transactions::Resolve(client_id, tx_id)) == (c, Ok::<(), LedgerError>(())),
        spec_apply(c, Transactions::Chargeback(client_id, tx_id)) == (c, Ok::<(), LedgerError>(
            (),
        )),
{
}

/// One client's account: balances plus the transaction history needed to
/// settle disputes.
pub struct Client {
    id: u16,
    available: i64,
    held: i64,
    total: i64,
    locked: bool,
    transaction_map: HashMap<u32, Transactions>,
    dispute_transactions: HashSet<u32>,
}

impl View for Client {
    type V = ClientModel;

    closed spec fn view(&self) -> ClientModel {
        ClientModel {
            id: self.id,
            available: self.available as int,
            held: self.held as int,
            total: self.total as int,
            locked: self.locked,
            ledger: self.transaction_map@,
            disputed: self.dispute_transactions@,
        }
    }
}

impl Transactions {
    /// The client this event is addressed to.
    pub fn get_client_id(&self) -> (r: u16)
        ensures
            r == tx_client(*self),
    {
        match *self {
            Transactions::Deposit(client_id, _, _) => client_id,
            Transactions::Withdrawal(client_id, _, _) => client_id,
            Transactions::Dispute(client_id, _) => client_id,
            Transactions::Resolve(client_id, _) => client_id,
            Transactions::Chargeback(client_id, _) => client_id,
        }
    }
}

impl Client {
    /// A fresh account for client `cid`.
    pub fn new(cid: u16) -> (c: Client)
        ensures
            c@ == client_init(cid),
    {
        let c = Client {
            id: cid,
            available: 0,
            held: 0,
            total: 0,
            locked: false,
            transaction_map: HashMap::new(),
            dispute_transactions: HashSet::new(),
        };
        proof {
            assert(c@ =~= client_init(cid));
        }
        c
    }

    /// An account with given balances and an empty history.
    pub fn from_parts(id: u16, available: i64, held: i64, total: i64, locked: bool) -> (c: Client)
        ensures
            c@ == (ClientModel {
                id,
                available: available as int,
                held: held as int,
                total: total as int,
                locked,
                ledger: Map::<u32, Transactions>::empty(),
                disputed: Set::<u32>::empty(),
            }),
    {
        let c = Client {
            id,
            available,
            held,
            total,
            locked,
            transaction_map: HashMap::new(),
            dispute_transactions: HashSet::new(),
        };
        proof {
            assert(c@ =~= ClientModel {
                id,
                available: available as int,
                held: held as int,
                total: total as int,
                locked,
                ledger: Map::<u32, Transactions>::empty(),
                disputed: Set::<u32>::empty(),
            });
        }
        c
    }

    pub fn id(&self) -> (r: u16)
        ensures
            r == self@.id,
    {
        self.id
    }

    pub fn available(&self) -> (r: i64)
        ensures
            r == self@.available,
    {
        self.available
    }

    pub fn held(&self) -> (r: i64)
        ensures
            r == self@.held,
    {
        self.held
    }

    pub fn total(&self) -> (r: i64)
        ensures
            r == self@.total,
    {
        self.total
    }

    pub fn locked(&self) -> (r: bool)
        ensures
            r == self@.locked,
    {
        self.locked
    }

    /// Apply one event to this account, all-or-nothing.
    pub fn handle_transaction(&mut self, tx: Transactions) -> (res: Result<(), LedgerError>)
        ensures
            final(self)@ == spec_apply(old(self)@, tx).0,
            res == spec_apply(old(self)@, tx).1,
    {
        match tx {
            Transactions::Deposit(_, tx_id, amount) => {
                if self.transaction_map.contains_key(&tx_id) {
                    return Err(LedgerError::DuplicateTransaction);
                }
                let new_available: i128 = (self.available as i128) + (amount as i128);
                let new_total: i128 = (self.total as i128) + (amount as i128);
                if new_available > (i64::MAX as i128) || new_total > (i64::MAX as i128) {
                    return Err(LedgerError::BalanceOutOfRange);
                }
                self.available = new_available as i64;
                self.total = new_total as i64;
                self.transaction_map.insert(tx_id, tx);
                proof {
                    assert(self@ =~= spec_apply(old(self)@, tx).0);
                }
                Ok(())
            },
            Transactions::Withdrawal(_, tx_id, amount) => {
                if self.available < 0 || (self.available as u64) < amount {
                    return Err(LedgerError::InsufficientFunds);
                }
                if self.transaction_map.contains_key(&tx_id) {
                    return Err(LedgerError::DuplicateTransaction);
                }
                let new_total: i128 = (self.total as i128) - (amount as i128);
                if new_total < (i64::MIN as i128) || new_total > (i64::MAX as i128) {
                    return Err(LedgerError::BalanceOutOfRange);
                }
                self.available = self.available - (amount as i64);
                self.total = new_total as i64;
                self.transaction_map.insert(tx_id, tx);
                proof {
                    assert(self@ =~= spec_apply(old(self)@, tx).0);
                }
                Ok(())
            },
            Transactions::Dispute(_, tx_id) => {
                let stored: Transactions = match self.transaction_map.get(&tx_id) {
                    Some(t) => *t,
                    None => {
                        return Ok(());
                    },
                };
                if self.dispute_transactions.contains(&tx_id) {
                    return Ok(());
                }
                match stored {
                    Transactions::Deposit(_, _, amount) => {
                        let new_available: i128 = (self.available as i128) - (amount as i128);
                        let new_held: i128 = (self.held as i128) + (amount as i128);
                        if new_available < (i64::MIN as i128) || new_held > (i64::MAX as i128) {
                            return Err(LedgerError::BalanceOutOfRange);
                        }
                        self.available = new_available as i64;
                        self.held = new_held as i64;
                        self.dispute_transactions.insert(tx_id);
                        proof {
                            assert(self@ =~= spec_apply(old(self)@, tx).0);
                        }
                        Ok(())
                    },
                    _ => Err(LedgerError::NotDisputable),
                }
            },
            Transactions::Resolve(_, tx_id) => {
                if !self.dispute_transactions.contains(&tx_id) {
                    return Ok(());
                }
                let stored: Option<Transactions> = match self.transaction_map.get(&tx_id) {
                    Some(t) => Some(*t),
                    None => None,
                };
                match stored {
                    Some(Transactions::Deposit(_, _, amount)) => {
                        let new_held: i128 = (self.held as i128) - (amount as i128);
                        let new_available: i128 = (self.available as i128) + (amount as i128);
                        if new_held < (i64::MIN as i128) || new_available > (i64::MAX as i128) {
                            return Err(LedgerError::BalanceOutOfRange);
                        }
                        self.dispute_transactions.remove(&tx_id);
                        self.held = new_held as i64;
                        self.available = new_available as i64;
                        proof {
                            assert(self@ =~= spec_apply(old(self)@, tx).0);
                        }
                        Ok(())
                    },
                    _ => {
                        self.dispute_transactions.remove(&tx_id);
                        proof {
                            assert(self@ =~= spec_apply(old(self)@, tx).0);
                        }
                        Ok(())
                    },
                }
            },
            Transactions::Chargeback(_, tx_id) => {
                if !self.dispute_transactions.contains(&tx_id) {
                    return Ok(());
                }
                let stored: Option<Transactions> = match self.transaction_map.get(&tx_id) {
                    Some(t) => Some(*t),
                    None => None,
                };
                match stored {
                    Some(Transactions::Deposit(_, _, amount)) => {
                        let new_held: i128 = (self.held as i128) - (amount as i128);
                        let new_total: i128 = (self.total as i128) - (amount as i128);
                        if new_held < (i64::MIN as i128) || new_total < (i64::MIN as i128) {
                            return Err(LedgerError::BalanceOutOfRange);
                        }
                        self.dispute_transactions.remove(&tx_id);
                        self.held = new_held as i64;
                        self.total = new_total as i64;
                        self.locked = true;
                        proof {
                            assert(self@ =~= spec_apply(old(self)@, tx).0);
                        }
                        Ok(())
                    },
                    _ => {
                        self.dispute_transactions.remove(&tx_id);
                        proof {
                            assert(self@ =~= spec_apply(old(self)@, tx).0);
                        }
                        Ok(())
                    },
                }
            },
        }
    }
}

/// The decimal digits of `n`, most significant first.
pub open spec fn spec_dec_digits(n: nat) -> Seq<u8>
    decreases n,
{
    if n < 10 {
        seq![(48 + n) as u8]
    } else {
        spec_dec_digits(n / 10).push((48 + n % 10) as u8)
    }
}

/// Decimal digit strings hold digit bytes only, at least one.
pub proof fn lemma_dec_digits_shape(n: nat)
    ensures
        spec_dec_digits(n).len() >= 1,
        forall|i: int|
            0 <= i < spec_dec_digits(n).len() ==> 48 <= #[trigger] spec_dec_digits(n)[i] <= 57,
    decreases n,
{
    if n >= 10 {
        lemma_dec_digits_shape(n / 10);
    }
}

fn push_dec_digits(n: u64, out: &mut Vec<u8>)
    ensures
        final(out)@ == old(out)@ + spec_dec_digits(n as nat),
    decreases n,
{
    if n < 10 {
        out.push(48 + (n as u8));
        proof {
            assert(out@ =~= old(out)@ + spec_dec_digits(n as nat));
        }
    } else {
        push_dec_digits(n / 10, out);
        out.push(48 + ((n % 10) as u8));
        proof {
            assert(out@ =~= old(out)@ + spec_dec_digits(n as nat));
        }
    }
}

/// Four zero-padded fractional digits of `fr` ten-thousandths.
pub open spec fn spec_frac4(fr: nat) -> Seq<u8> {
    seq![
        (48 + fr / 1000 % 10) as u8,
        (48 + fr / 100 % 10) as u8,
        (48 + fr / 10 % 10) as u8,
        (48 + fr % 10) as u8,
    ]
}

/// Fractional digits with trailing zeros removed, one digit at least.
pub open spec fn spec_strip_frac(s: Seq<u8>) -> Seq<u8>
    decreases s.len(),
{
    if s.len() <= 1 {
        s
    } else if s.last() == 48 {
        spec_strip_frac(s.drop_last())
    } else {
        s
    }
}

/// Stripping keeps a non-empty prefix of the digits.
pub proof fn lemma_strip_frac_prefix(s: Seq<u8>)
    ensures
        spec_strip_frac(s).len() <= s.len(),
        s.len() > 0 ==> spec_strip_frac(s).len() >= 1,
        forall|i: int|
            0 <= i < spec_strip_frac(s).len() ==> #[trigger] spec_strip_frac(s)[i] == s[i],
    decreases s.len(),
{
    if s.len() > 1 && s.last() == 48 {
        lemma_strip_frac_prefix(s.drop_last());
    }
}

/// The text of a fixed-point balance: an optional minus sign, the integer
/// part, a dot, and one to four fractional digits without trailing zeros.
pub open spec fn spec_fixed(v: int) -> Seq<u8> {
    let m = if v < 0 {
        -v
    } else {
        v
    };
    (if v < 0 {
        seq![45u8]
    } else {
        Seq::<u8>::empty()
    }) + spec_dec_digits((m / 10000) as nat) + seq![46u8] + spec_strip_frac(
        spec_frac4((m % 10000) as nat),
    )
}

/// Render a balance in ten-thousandths as decimal text.
pub fn format_fixed(v: i64) -> (r: Vec<u8>)
    ensures
        r@ == spec_fixed(v as int),
{
    let mut out: Vec<u8> = Vec::new();
    let mag: u64 = if v < 0 {
        out.push(45);
        (-(v as i128)) as u64
    } else {
        v as u64
    };
    let ip: u64 = mag / 10000;
    let fr: u64 = mag % 10000;
    push_dec_digits(ip, &mut out);
    out.push(46);
    let mut frac: Vec<u8> = Vec::new();
    frac.push(48 + ((fr / 1000) % 10) as u8);
    frac.push(48 + ((fr / 100) % 10) as u8);
    frac.push(48 + ((fr / 10) % 10) as u8);
    frac.push(48 + (fr % 10) as u8);
    proof {
        assert(frac@ =~= spec_frac4(fr as nat));
    }
    while frac.len() > 1 && frac[frac.len() - 1] == 48
        invariant
            frac@.len() >= 1,
            spec_strip_frac(frac@) == spec_strip_frac(spec_frac4(fr as nat)),
        decreases frac@.len(),
    {
        frac.pop();
    }
    out.append(&mut frac);
    proof {
        assert(out@ =~= spec_fixed(v as int));
    }
    out
}

/// The text of the `locked` flag.
pub open spec fn spec_bool_bytes(b: bool) -> Seq<u8> {
    if b {
        seq![116u8, 114u8, 117u8, 101u8]
    } else {
        seq![102u8, 97u8, 108u8, 115u8, 101u8]
    }
}

fn bool_bytes(b: bool) -> (r: Vec<u8>)
    ensures
        r@ == spec_bool_bytes(b),
{
    let r: Vec<u8> = if b {
        vec![116u8, 114u8, 117u8, 101u8]
    } else {
        vec![102u8, 97u8, 108u8, 115u8, 101u8]
    };
    proof {
        assert(r@ =~= spec_bool_bytes(b));
    }
    r
}

/// Bytes all below 128.
pub open spec fn all_ascii(s: Seq<u8>) -> bool {
    forall|i: int| 0 <= i < s.len() ==> #[trigger] s[i] < 128
}

/// Every field of a row is ASCII.
pub open spec fn row_ascii(row: Seq<Seq<u8>>) -> bool {
    forall|j: int| 0 <= j < row.len() ==> all_ascii(#[trigger] row[j])
}

/// A field the CSV writer passes through unquoted: no comma, quote, or
/// line break.
pub open spec fn csv_plain_field(f: Seq<u8>) -> bool {
    forall|i: int|
        0 <= i < f.len() ==> #[trigger] f[i] != 44 && f[i] != 34 && f[i] != 10 && f[i] != 13
}

/// The header fields of the output table.
pub open spec fn spec_header_fields() -> Seq<Seq<u8>> {
    seq![
        seq![99u8, 108u8, 105u8, 101u8, 110u8, 116u8],
        seq![97u8, 118u8, 97u8, 105u8, 108u8, 97u8, 98u8, 108u8, 101u8],
        seq![104u8, 101u8, 108u8, 100u8],
        seq![116u8, 111u8, 116u8, 97u8, 108u8],
        seq![108u8, 111u8, 99u8, 107u8, 101u8, 100u8],
    ]
}

/// The five output fields of one account row.
pub open spec fn spec_row_fields(c: ClientModel) -> Seq<Seq<u8>> {
    seq![
        spec_dec_digits(c.id as nat),
        spec_fixed(c.available),
        spec_fixed(c.held),
        spec_fixed(c.total),
        spec_bool_bytes(c.locked),
    ]
}

/// Fields joined with commas.
pub open spec fn spec_join_fields(fs: Seq<Seq<u8>>) -> Seq<u8>
    decreases fs.len(),
{
    if fs.len() == 0 {
        Seq::empty()
    } else if fs.len() == 1 {
        fs[0]
    } else {
        fs[0] + seq![44u8] + spec_join_fields(fs.drop_first())
    }
}

/// Records joined: each row's fields comma-separated, each row ended by a
/// newline.
pub open spec fn spec_csv_join(rows: Seq<Seq<Seq<u8>>>) -> Seq<u8>
    decreases rows.len(),
{
    if rows.len() == 0 {
        Seq::empty()
    } else {
        spec_join_fields(rows.first()) + seq![10u8] + spec_csv_join(rows.drop_first())
    }
}

/// Relies on `csv::Writer` over an in-memory buffer: fields are joined with
/// commas and records terminated by a newline; a field is quoted only when
/// it holds a quote, comma, or line break — or when it is empty and the
/// only field of its record, which the `requires` below rules out — so the
/// admitted fields pass through unchanged, and writing to memory cannot
/// fail.
#[verifier::external_body]
fn csv_write_rows(rows: &Vec<Vec<Vec<u8>>>) -> (r: Vec<u8>)
    requires
        forall|i: int| 0 <= i < rows.deep_view().len() ==> #[trigger] rows.deep_view()[i].len() > 0,
        forall|i: int, j: int|
            0 <= i < rows.deep_view().len() && 0 <= j < rows.deep_view()[i].len()
                ==> csv_plain_field(#[trigger] rows.deep_view()[i][j]),
        forall|i: int, j: int|
            0 <= i < rows.deep_view().len() && 0 <= j < rows.deep_view()[i].len()
                ==> (#[trigger] rows.deep_view()[i][j]).len() > 0,
    ensures
        r@ == spec_csv_join(rows.deep_view()),
{
    let mut w = csv::WriterBuilder::new().flexible(true).from_writer(Vec::new());
    for row in rows.iter() {
        let _ = w.write_record(row.iter());
    }
    w.into_inner().unwrap_or_default()
}

/// Relies on `String::from_utf8`: ASCII bytes become the same characters.
#[verifier::external_body]
fn ascii_string(v: Vec<u8>) -> (r: String)
    requires
        all_ascii(v@),
    ensures
        r@ == v@.map_values(|b: u8| b as char),
{
    String::from_utf8(v).unwrap_or_default()
}

/// The models of a sequence of accounts.
pub open spec fn views_of(s: Seq<Client>) -> Seq<ClientModel> {
    s.map_values(|c: Client| c@)
}

/// The whole output table for the given accounts, as bytes: the header
/// row, then one row per account in the given order.
pub open spec fn spec_csv_output(accs: Seq<ClientModel>) -> Seq<u8> {
    spec_csv_join(seq![spec_header_fields()] + accs.map_values(|c: ClientModel| spec_row_fields(c)))
}

/// Balance texts hold only digits, a sign, and a dot.
pub proof fn lemma_fixed_plain(v: int)
    ensures
        csv_plain_field(spec_fixed(v)),
        spec_fixed(v).len() > 0,
        all_ascii(spec_fixed(v)),
{
    let m = if v < 0 {
        -v
    } else {
        v
    };
    lemma_dec_digits_shape((m / 10000) as nat);
    lemma_strip_frac_prefix(spec_frac4((m % 10000) as nat));
}

/// Digit texts are plain ASCII fields.
pub proof fn lemma_dec_digits_plain(n: nat)
    ensures
        csv_plain_field(spec_dec_digits(n)),
        spec_dec_digits(n).len() > 0,
        all_ascii(spec_dec_digits(n)),
{
    lemma_dec_digits_shape(n);
}

/// Serialize the accounts as a CSV table: header row, then one row per
/// account, each balance truncated to four fractional digits.
pub fn write_csv(clients: &Vec<Client>) -> (r: Result<String, String>)
    ensures
        match r {
            Ok(s) => s@ == spec_csv_output(views_of(clients@)).map_values(|b: u8| b as char),
            Err(_) => false,
        },
{
    let mut rows: Vec<Vec<Vec<u8>>> = Vec::new();
    let mut header: Vec<Vec<u8>> = Vec::new();
    header.push(vec![99u8, 108u8, 105u8, 101u8, 110u8, 116u8]);
    header.push(vec![97u8, 118u8, 97u8, 105u8, 108u8, 97u8, 98u8, 108u8, 101u8]);
    header.push(vec![104u8, 101u8, 108u8, 100u8]);
    header.push(vec![116u8, 111u8, 116u8, 97u8, 108u8]);
    header.push(vec![108u8, 111u8, 99u8, 107u8, 101u8, 100u8]);
    proof {
        assert(header.deep_view() =~~= spec_header_fields());
    }
    rows.push(header);
    let n = clients.len();
    let mut i: usize = 0;
    proof {
        assert(rows.deep_view() =~~= seq![spec_header_fields()] + views_of(clients@).take(
            0int,
        ).map_values(|c: ClientModel| spec_row_fields(c)));
    }
    while i < n
        invariant
            0 <= i <= n,
            n == clients@.len(),
            rows.deep_view() == seq![spec_header_fields()] + views_of(clients@).take(
                i as int,
            ).map_values(|c: ClientModel| spec_row_fields(c)),
        decreases n - i,
    {
        let c = &clients[i];
        let mut idv: Vec<u8> = Vec::new();
        push_dec_digits(c.id() as u64, &mut idv);
        let mut row: Vec<Vec<u8>> = Vec::new();
        row.push(idv);
        row.push(format_fixed(c.available()));
        row.push(format_fixed(c.held()));
        row.push(format_fixed(c.total()));
        row.push(bool_bytes(c.locked()));
        proof {
            assert(row.deep_view() =~~= spec_row_fields(clients@[i as int]@));
        }
        let ghost rows_old = rows.deep_view();
        rows.push(row);
        i = i + 1;
        proof {
            assert(rows.deep_view() =~~= rows_old.push(spec_row_fields(clients@[i as int - 1]@)));
            assert(rows.deep_view() =~~= seq![spec_header_fields()] + views_of(clients@).take(
                i as int,
            ).map_values(|c: ClientModel| spec_row_fields(c)));
        }
    }
    proof {
        assert(views_of(clients@).take(n as int) =~= views_of(clients@));
        assert(rows.deep_view() =~~= seq![spec_header_fields()] + views_of(clients@).map_values(
            |c: ClientModel| spec_row_fields(c),
        ));
        assert forall|k: int| 0 <= k < rows.deep_view().len() implies #[trigger] rows.deep_view()[
            k
        ].len() > 0 by {
            if k > 0 {
                let c = views_of(clients@)[k - 1];
                assert(rows.deep_view()[k] == spec_row_fields(c));
            }
        }
        assert forall|k: int, j: int|
            0 <= k < rows.deep_view().len() && 0 <= j < rows.deep_view()[k].len() implies
            csv_plain_field(#[trigger] rows.deep_view()[k][j]) by {
            if k > 0 {
                let c = views_of(clients@)[k - 1];
                lemma_dec_digits_plain(c.id as nat);
                lemma_fixed_plain(c.available);
                lemma_fixed_plain(c.held);
                lemma_fixed_plain(c.total);
            }
        }
        assert forall|k: int| 0 <= k < rows.deep_view().len() implies row_ascii(
            #[trigger] rows.deep_view()[k],
        ) by {
            if k > 0 {
                let c = views_of(clients@)[k - 1];
                lemma_dec_digits_plain(c.id as nat);
                lemma_fixed_plain(c.available);
                lemma_fixed_plain(c.held);
                lemma_fixed_plain(c.total);
            }
        }
        assert forall|k: int, j: int|
            0 <= k < rows.deep_view().len() && 0 <= j < rows.deep_view()[k].len() implies (
        #[trigger] rows.deep_view()[k][j]).len() > 0 by {
            if k > 0 {
                let c = views_of(clients@)[k - 1];
                lemma_dec_digits_plain(c.id as nat);
                lemma_fixed_plain(c.available);
                lemma_fixed_plain(c.held);
                lemma_fixed_plain(c.total);
            }
        }
    }
    let bytes = csv_write_rows(&rows);
    proof {
        lemma_csv_join_ascii(rows.deep_view());
    }
    let s = ascii_string(bytes);
    Ok(s)
}

/// A table of plain ASCII fields joins into plain ASCII bytes.
pub proof fn lemma_csv_join_ascii(rows: Seq<Seq<Seq<u8>>>)
    requires
        forall|k: int| 0 <= k < rows.len() ==> row_ascii(#[trigger] rows[k]),
    ensures
        all_ascii(spec_csv_join(rows)),
    decreases rows.len(),
{
    if rows.len() > 0 {
        lemma_join_fields_ascii(rows.first());
        assert(forall|k: int|
            0 <= k < rows.drop_first().len() ==> #[trigger] rows.drop_first()[k] == rows[k + 1]);
        lemma_csv_join_ascii(rows.drop_first());
    }
}

/// A row of plain ASCII fields joins into plain ASCII bytes.
pub proof fn lemma_join_fields_ascii(fs: Seq<Seq<u8>>)
    requires
        row_ascii(fs),
    ensures
        all_ascii(spec_join_fields(fs)),
    decreases fs.len(),
{
    if fs.len() > 1 {
        assert(forall|j: int|
            0 <= j < fs.drop_first().len() ==> #[trigger] fs.drop_first()[j] == fs[j + 1]);
        lemma_join_fields_ascii(fs.drop_first());
    }
}

} // verus!
