//! A small transaction-processing ledger.
//!
//! Events (deposits, withdrawals, disputes, resolutions, chargebacks) are
//! applied to per-client accounts; at the end of a stream the accounts are
//! rendered as a CSV balance table. Monetary values are fixed-point numbers
//! with four fractional decimal digits, held in integers.

use vstd::prelude::*;

pub mod client;
pub mod csv_parser;

verus! {

use crate::client::{Client, ClientModel, LedgerError, Transactions};
use crate::client::{balanced, client_init, lemma_apply_preserves_balance, spec_apply};
use crate::client::{spec_csv_output, tx_client, views_of, write_csv};
use crate::csv_parser::{clean, read_records, records_to_events, InputError};
use crate::csv_parser::{spec_clean, spec_events_of, spec_read_records};

/// The index of the first account with the given client id, if any.
pub open spec fn seq_find_id(s: Seq<ClientModel>, id: u16) -> Option<int>
    decreases s.len(),
{
    if s.len() == 0 {
        None
    } else if s.first().id == id {
        Some(0int)
    } else {
        match seq_find_id(s.drop_first(), id) {
            Some(i) => Some(i + 1),
            None => None,
        }
    }
}

/// `seq_find_id` returns the first matching index, or `None` when no
/// account carries the id.
pub proof fn lemma_seq_find_id_first(s: Seq<ClientModel>, id: u16)
    ensures
        match seq_find_id(s, id) {
            Some(i) => 0 <= i < s.len() && s[i].id == id && (forall|j: int|
                0 <= j < i ==> s[j].id != id),
            None => forall|j: int| 0 <= j < s.len() ==> s[j].id != id,
        },
    decreases s.len(),
{
    if s.len() > 0 && s.first().id != id {
        let t = s.drop_first();
        lemma_seq_find_id_first(t, id);
        match seq_find_id(t, id) {
            Some(i) => {
                assert(t[i] == s[i + 1]);
                assert forall|j: int| 0 <= j < i + 1 implies s[j].id != id by {
                    if j > 0 {
                        assert(s[j] == t[j - 1]);
                    }
                }
            },
            None => {
                assert forall|j: int| 0 <= j < s.len() implies s[j].id != id by {
                    if j > 0 {
                        assert(s[j] == t[j - 1]);
                    }
                }
            },
        }
    }
}

/// Route one event: apply it to the addressed client's account, creating
/// that account first if the client was never seen.
pub open spec fn spec_route_step(accs: Seq<ClientModel>, tx: Transactions) -> (Seq<ClientModel>,
    Result<(), LedgerError>) {
    match seq_find_id(accs, tx_client(tx)) {
        Some(i) => {
            let s = spec_apply(accs[i], tx);
            (accs.update(i, s.0), s.1)
        },
        None => {
            let s = spec_apply(client_init(tx_client(tx)), tx);
            (accs.push(s.0), s.1)
        },
    }
}

/// Route a whole event sequence, starting from no accounts: the final
/// accounts in order of first appearance, and one outcome per event.
pub open spec fn spec_route(txs: Seq<Transactions>) -> (Seq<ClientModel>, Seq<
    Result<(), LedgerError>,
>)
    decreases txs.len(),
{
    if txs.len() == 0 {
        (Seq::empty(), Seq::empty())
    } else {
        let prev = spec_route(txs.drop_last());
        let st = spec_route_step(prev.0, txs.last());
        (st.0, prev.1.push(st.1))
    }
}

fn find_account(accounts: &Vec<Client>, id: u16) -> (r: Option<usize>)
    ensures
        match r {
            Some(i) => seq_find_id(views_of(accounts@), id) == Some(i as int),
            None => seq_find_id(views_of(accounts@), id) is None,
        },
{
    let n = accounts.len();
    let mut i: usize = 0;
    while i < n
        invariant
            n == accounts@.len(),
            0 <= i <= n,
            forall|j: int| 0 <= j < i ==> views_of(accounts@)[j].id != id,
        decreases n - i,
    {
        if accounts[i].id() == id {
            proof {
                assert(views_of(accounts@)[i as int] == accounts@[i as int]@);
                lemma_seq_find_id_first(views_of(accounts@), id);
            }
            return Some(i);
        }
        i = i + 1;
    }
    proof {
        lemma_seq_find_id_first(views_of(accounts@), id);
    }
    None
}

/// Feed each event, in arrival order, to the account of the client it names,
/// creating accounts lazily. A rejected event is recorded in the returned
/// outcomes and does not stop the stream.
pub fn route(events: &Vec<Transactions>) -> (r: (Vec<Client>, Vec<Result<(), LedgerError>>))
    ensures
        views_of(r.0@) == spec_route(events@).0,
        r.1@ == spec_route(events@).1,
{
    let mut accounts: Vec<Client> = Vec::new();
    let mut outcomes: Vec<Result<(), LedgerError>> = Vec::new();
    let n = events.len();
    let mut i: usize = 0;
    proof {
        assert(events@.take(0int) =~= Seq::<Transactions>::empty());
        assert(views_of(accounts@) =~= Seq::<ClientModel>::empty());
    }
    while i < n
        invariant
            n == events@.len(),
            0 <= i <= n,
            views_of(accounts@) == spec_route(events@.take(i as int)).0,
            outcomes@ == spec_route(events@.take(i as int)).1,
        decreases n - i,
    {
        let tx = events[i];
        let id = tx.get_client_id();
        let ghost prev = views_of(accounts@);
        match find_account(&accounts, id) {
            Some(pos) => {
                proof {
                    lemma_seq_find_id_first(prev, id);
                }
                let ghost a0 = accounts@;
                let mut c = accounts.remove(pos);
                let res = c.handle_transaction(tx);
                let ghost cm = c@;
                accounts.insert(pos, c);
                outcomes.push(res);
                proof {
                    assert(accounts@ =~= a0.update(pos as int, accounts@[pos as int]));
                    assert(views_of(accounts@) =~= prev.update(pos as int, cm));
                }
            },
            None => {
                let mut c = Client::new(id);
                let res = c.handle_transaction(tx);
                accounts.push(c);
                outcomes.push(res);
            },
        }
        i = i + 1;
        proof {
            assert(events@.take(i as int).drop_last() =~= events@.take(i as int - 1));
            assert(events@.take(i as int).last() == events@[i as int - 1]);
        }
    }
    proof {
        assert(events@.take(n as int) =~= events@);
    }
    (accounts, outcomes)
}

/// Law: every account produced by routing a stream is balanced, at the end
/// of the stream as after each event: `total == available + held`.
pub proof fn lemma_route_all_balanced(txs: Seq<Transactions>)
    ensures
        forall|i: int|
            0 <= i < spec_route(txs).0.len() ==> balanced(#[trigger] spec_route(txs).0[i]),
    decreases txs.len(),
{
    if txs.len() > 0 {
        lemma_route_all_balanced(txs.drop_last());
        let prev = spec_route(txs.drop_last()).0;
        let tx = txs.last();
        let cur = spec_route(txs).0;
        match seq_find_id(prev, tx_client(tx)) {
            Some(k) => {
                lemma_seq_find_id_first(prev, tx_client(tx));
                lemma_apply_preserves_balance(prev[k], tx);
                assert forall|i: int| 0 <= i < cur.len() implies balanced(#[trigger] cur[i]) by {
                    if i != k {
                        assert(cur[i] == prev[i]);
                    }
                }
            },
            None => {
                lemma_apply_preserves_balance(client_init(tx_client(tx)), tx);
                assert forall|i: int| 0 <= i < cur.len() implies balanced(#[trigger] cur[i]) by {
                    if i < prev.len() {
                        assert(cur[i] == prev[i]);
                    }
                }
            },
        }
    }
}

/// The outcome of a whole run over a raw byte stream: the final balance
/// table and the per-event outcomes, or the fatal input error.
pub open spec fn spec_process(data: Seq<u8>) -> Result<
    (Seq<u8>, Seq<Result<(), LedgerError>>),
    InputError,
> {
    match spec_read_records(spec_clean(data)) {
        Err(e) => Err(e),
        Ok(recs) => match spec_events_of(recs) {
            Err(e) => Err(e),
            Ok(events) => Ok((spec_csv_output(spec_route(events).0), spec_route(events).1)),
        },
    }
}

/// Run a whole raw CSV stream: strip spaces, read the records, turn them
/// into events, route them to the accounts, and render the balance table.
/// Per-event rejections are reported in the outcome list and do not stop
/// the run; a fatal input error aborts it.
pub fn process_transactions(data: &Vec<u8>) -> (r: Result<
    (String, Vec<Result<(), LedgerError>>),
    InputError,
>)
    ensures
        match r {
            Ok(p) => {
                &&& spec_process(data@) is Ok
                &&& p.1@ == spec_process(data@)->Ok_0.1
                &&& p.0@ == spec_process(data@)->Ok_0.0.map_values(|b: u8| b as char)
            },
            Err(e) => spec_process(data@) == Err::<
                (Seq<u8>, Seq<Result<(), LedgerError>>),
                InputError,
            >(e),
        },
{
    let cleaned = clean(data);
    let recs = match read_records(&cleaned) {
        Ok(v) => v,
        Err(e) => {
            return Err(e);
        },
    };
    let events = match records_to_events(&recs) {
        Ok(v) => v,
        Err(e) => {
            return Err(e);
        },
    };
    let (accounts, outcomes) = route(&events);
    match write_csv(&accounts) {
        Ok(s) => Ok((s, outcomes)),
        Err(_) => {
            proof {
                assert(false);
            }
            Err(InputError::MalformedRecord)
        },
    }
}

} // verus!
