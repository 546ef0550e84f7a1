//! What Bitcoin Core's RPC answers hold that the explorer reads, and the
//! explorer's reasoning over it: the latest blocks, and the inputs of a
//! transaction.
use vstd::prelude::*;

verus! {

/// How much a `getrawtransaction` answer decodes.
#[derive(Clone, Copy, Debug, PartialEq, Eq, Structural)]
pub enum VerbosityLevel {
    HexDecoded,
    Detailed,
}

impl VerbosityLevel {
    /// The number Bitcoin Core takes for this level: 1 and 2.
    pub fn as_int(&self) -> (n: i32)
        ensures
            n == match *self {
                VerbosityLevel::HexDecoded => 1i32,
                VerbosityLevel::Detailed => 2i32,
            },
    {
        match self {
            VerbosityLevel::HexDecoded => 1,
            VerbosityLevel::Detailed => 2,
        }
    }
}

/// The answer of `validateaddress`.
#[derive(Debug)]
pub struct ValidateAddress {
    pub isvalid: bool,
    pub address: String,
    pub script_pub_key: String,
    pub isscript: bool,
    pub iswitness: bool,
}

impl ValidateAddress {
    /// Whether the explorer shows a page for the address: only a valid one has
    /// one; for any other the visitor is sent back to the front page.
    pub fn has_page(&self) -> (shown: bool)
        ensures
            shown == self.isvalid,
    {
        self.isvalid
    }
}

/// One network of a `getnetworkinfo` answer.
#[derive(Debug)]
pub struct Network {
    pub name: String,
    pub limited: bool,
    pub reachable: bool,
    pub proxy: String,
    pub proxy_randomize_credentials: bool,
}

/// One local address of a `getnetworkinfo` answer.
#[derive(Debug)]
pub struct Address {
    pub address: String,
    pub port: i32,
    pub score: i32,
}

/// One input of a transaction.
#[derive(Debug)]
pub struct Vin {
    pub txid: Option<String>,
    pub vout: Option<i64>,
    pub coinbase: Option<String>,
    pub txinwitness: Option<Vec<String>>,
    pub sequence: Option<u64>,
}

/// The locking script of a transaction output.
#[derive(Clone, Debug)]
pub struct ScriptPubKey {
    pub script_asm: String,
    pub hex: String,
    pub req_sigs: Option<i32>,
    pub type_: String,
    pub address: Option<String>,
    pub desc: Option<String>,
}

/// The heights of the six blocks the front page lists, newest first:
/// `current`, `current - 1`, ..., `current - 5`.
pub fn recent_block_heights(current: i64) -> (heights: Vec<i64>)
    requires
        current >= i64::MIN + 5,
    ensures
        heights.len() == 6,
        forall|k: int| 0 <= k < 6 ==> heights[k] == current - k,
{
    let mut heights: Vec<i64> = Vec::new();
    let mut k: i64 = 0;
    while k < 6
        invariant
            0 <= k <= 6,
            current >= i64::MIN + 5,
            heights.len() == k,
            forall|j: int| 0 <= j < k ==> heights[j] == current - j,
        decreases 6 - k,
    {
        heights.push(current - k);
        k = k + 1;
    }
    heights
}

/// Whether a transaction with inputs `vin` is a coinbase transaction: its
/// first input carries a coinbase script.
pub fn is_coinbase(vin: &Vec<Vin>) -> (coinbase: bool)
    ensures
        coinbase == (vin.len() > 0 && vin[0].coinbase is Some),
{
    if vin.len() == 0 {
        false
    } else {
        vin[0].coinbase.is_some()
    }
}

/// The ids of the transactions that the inputs `vin` spend, in order, for
/// those inputs that name one.
pub open spec fn spent_txids(vin: Seq<Vin>) -> Seq<String>
    decreases vin.len(),
{
    if vin.len() == 0 {
        Seq::empty()
    } else {
        match vin.last().txid {
            Some(txid) => spent_txids(vin.drop_last()).push(txid),
            None => spent_txids(vin.drop_last()),
        }
    }
}

/// The ids of the transactions that the inputs `vin` spend, in order;
/// inputs without one are passed over.
pub fn input_txids(vin: &Vec<Vin>) -> (txids: Vec<String>)
    ensures
        txids@ == spent_txids(vin@),
        txids@ == vin@.filter_map(|input: Vin| input.txid),
        txids.len() == vin@.filter(|input: Vin| input.txid is Some).len(),
{
    proof {
        lemma_spent_txids_one_per_input(vin@);
    }
    let mut txids: Vec<String> = Vec::new();
    let mut i: usize = 0;
    while i < vin.len()
        invariant
            i <= vin.len(),
            txids@ == spent_txids(vin@.take(i as int)),
        decreases vin.len() - i,
    {
        assert(vin@.take(i + 1).drop_last() =~= vin@.take(i as int));
        match &vin[i].txid {
            Some(txid) => txids.push(txid.clone()),
            None => {},
        }
        i = i + 1;
    }
    assert(vin@.take(vin.len() as int) =~= vin@);
    txids
}

/// Law: the spent transactions are listed one per input that names one, in
/// the order of the inputs, repeats included, so that the `k`-th fetched
/// transaction belongs to the `k`-th such input: the list is the inputs'
/// txids with the inputs that name none left out.
pub proof fn lemma_spent_txids_one_per_input(vin: Seq<Vin>)
    ensures
        spent_txids(vin) == vin.filter_map(|input: Vin| input.txid),
        spent_txids(vin).len() == vin.filter(|input: Vin| input.txid is Some).len(),
    decreases vin.len(),
{
    if vin.len() == 0 {
        reveal(Seq::filter);
    } else {
        lemma_spent_txids_one_per_input(vin.drop_last());
        let rest = spent_txids(vin.drop_last());
        reveal(Seq::filter);
        assert(vin.filter(|input: Vin| input.txid is Some) == if vin.last().txid is Some {
            vin.drop_last().filter(|input: Vin| input.txid is Some).push(vin.last())
        } else {
            vin.drop_last().filter(|input: Vin| input.txid is Some)
        });
        match vin.last().txid {
            Some(t) => {
                assert(rest.push(t) =~= vin.drop_last().filter_map(|input: Vin| input.txid) + seq![t]);
            },
            None => {},
        }
    }
}

/// Which output of the spent transaction an input spends, given that the
/// transaction has `outputs` outputs: its `vout` (0 when it has none) taken
/// `as usize`, when that is an index of an output.
pub open spec fn spent_output(input: Vin, outputs: usize) -> Option<usize> {
    let index = match input.vout {
        Some(v) => v as usize,
        None => 0usize,
    };
    if index < outputs {
        Some(index)
    } else {
        None
    }
}

/// Law: an input spends the output its `vout` names (output 0 when it names
/// none), whenever that output exists; and no output when there is none with
/// that index.
pub proof fn lemma_spent_output_named(input: Vin, outputs: usize)
    ensures
        input.vout matches Some(v) ==> (0 <= v < outputs ==> spent_output(input, outputs) == Some(
            v as usize,
        )),
        input.vout is None ==> spent_output(input, outputs) == (if outputs > 0 {
            Some(0usize)
        } else {
            None
        }),
        input.vout matches Some(v) ==> (0 <= v <= usize::MAX && v >= outputs ==> spent_output(input, outputs) is None),
        spent_output(input, outputs) matches Some(j) ==> j < outputs,
{
}

/// Which output of the spent transaction `input` spends, among `outputs`
/// outputs; `None` when its index names none of them.
pub fn spent_output_index(input: &Vin, outputs: usize) -> (index: Option<usize>)
    ensures
        index == spent_output(*input, outputs),
        input.vout matches Some(v) ==> (0 <= v < outputs ==> index == Some(v as usize)),
        input.vout is None ==> index == (if outputs > 0 { Some(0usize) } else { None }),
        input.vout matches Some(v) ==> (0 <= v <= usize::MAX && v >= outputs ==> index is None),
        index matches Some(j) ==> j < outputs,
{
    proof {
        lemma_spent_output_named(*input, outputs);
    }
    let index = match input.vout {
        Some(v) => v as usize,
        None => 0,
    };
    if index < outputs {
        Some(index)
    } else {
        None
    }
}

/// The addresses that the inputs `vin` spend from. `spent[i]` holds the
/// addresses of the outputs of the `i`-th transaction fetched for the inputs;
/// input `i` is paired with it, for as many pairs as both lists have. An
/// input whose output index names no output, or whose output has no address,
/// gives `None`.
pub fn input_addresses(vin: &Vec<Vin>, spent: &Vec<Vec<Option<String>>>) -> (addresses: Vec<
    Option<String>,
>)
    ensures
        addresses.len() == if vin.len() < spent.len() {
            vin.len()
        } else {
            spent.len()
        },
        forall|i: int|
            0 <= i < addresses.len() ==> #[trigger] addresses[i] == match spent_output(
                vin[i],
                spent[i].len(),
            ) {
                Some(j) => spent[i][j as int],
                None => None,
            },
{
    let n = if vin.len() < spent.len() {
        vin.len()
    } else {
        spent.len()
    };
    let mut addresses: Vec<Option<String>> = Vec::new();
    let mut i: usize = 0;
    while i < n
        invariant
            n <= vin.len(),
            n <= spent.len(),
            i <= n,
            addresses.len() == i,
            forall|k: int|
                0 <= k < i ==> #[trigger] addresses[k] == match spent_output(
                    vin[k],
                    spent[k].len(),
                ) {
                    Some(j) => spent[k][j as int],
                    None => None,
                },
        decreases n - i,
    {
        let outputs = &spent[i];
        let address = match spent_output_index(&vin[i], outputs.len()) {
            Some(j) => match &outputs[j] {
                Some(a) => Some(a.clone()),
                None => None,
            },
            None => None,
        };
        addresses.push(address);
        i = i + 1;
    }
    addresses
}

} // verus!
