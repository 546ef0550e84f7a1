//! The search box: which block, transaction or address page a query leads
//! to. The explorer asks the node in between, so the decision is a state
//! machine: each step either asks the node one question or names the page.
use vstd::prelude::*;
use crate::decimal::{parse_i64, parse_i64_text};

verus! {

/// A step of a search.
#[derive(Clone, Copy, Debug, PartialEq, Eq, Structural)]
pub enum SearchStep {
    /// Ask the node for the hash of the block at this height.
    FetchBlockHashAt(i64),
    /// Ask the node for the block whose hash is the query.
    FetchBlock,
    /// Ask the node for the transaction whose id is the query.
    FetchTransaction,
    /// Show the block whose hash the node gave for the height.
    ShowBlockAtHeight,
    /// Show the block whose hash is the query.
    ShowBlock,
    /// Show the transaction whose id is the query.
    ShowTransaction,
    /// Show the address that the query is taken for.
    ShowAddress,
}

/// Whether the step asks the node a question (rather than naming a page).
pub open spec fn is_lookup(step: SearchStep) -> bool {
    match step {
        SearchStep::FetchBlockHashAt(_) | SearchStep::FetchBlock | SearchStep::FetchTransaction => true,
        _ => false,
    }
}

/// The step once the query is known not to name a block height: a query of
/// 64 bytes may be a block hash or a transaction id, any other is taken for
/// an address.
pub open spec fn step_after_height(query: &str) -> SearchStep {
    if query.len() == 64 {
        SearchStep::FetchBlock
    } else {
        SearchStep::ShowAddress
    }
}

/// The first step of a search: a query that reads as an `i64` is tried as a
/// block height first.
pub open spec fn first_step(query: &str) -> SearchStep {
    match parse_i64_text(query@) {
        Some(height) => SearchStep::FetchBlockHashAt(height),
        None => step_after_height(query),
    }
}

/// The step after `step`, given whether the node found what it was asked for.
/// A step that names a page stays as it is.
pub open spec fn next_step(query: &str, step: SearchStep, found: bool) -> SearchStep {
    match step {
        SearchStep::FetchBlockHashAt(_) => if found {
            SearchStep::ShowBlockAtHeight
        } else {
            step_after_height(query)
        },
        SearchStep::FetchBlock => if found {
            SearchStep::ShowBlock
        } else {
            SearchStep::FetchTransaction
        },
        SearchStep::FetchTransaction => if found {
            SearchStep::ShowTransaction
        } else {
            SearchStep::ShowAddress
        },
        _ => step,
    }
}

fn after_height(query: &str) -> (step: SearchStep)
    ensures
        step == step_after_height(query),
{
    if query.len() == 64 {
        SearchStep::FetchBlock
    } else {
        SearchStep::ShowAddress
    }
}

/// The first step of a search for `query`.
pub fn search_start(query: &str) -> (step: SearchStep)
    ensures
        step == first_step(query),
        parse_i64_text(query@) matches Some(height) ==> step == SearchStep::FetchBlockHashAt(height),
        parse_i64_text(query@) is None && query.len() == 64 ==> step == SearchStep::FetchBlock,
        parse_i64_text(query@) is None && query.len() != 64 ==> step == SearchStep::ShowAddress,
{
    proof {
        lemma_search_first_question(query);
    }
    match parse_i64(query) {
        Some(height) => SearchStep::FetchBlockHashAt(height),
        None => after_height(query),
    }
}

/// The step of a search for `query` after `step`, where `found` tells whether
/// the node answered the question of `step` without error.
pub fn search_next(query: &str, step: SearchStep, found: bool) -> (next: SearchStep)
    ensures
        next == next_step(query, step, found),
        step is FetchBlockHashAt && found ==> next == SearchStep::ShowBlockAtHeight,
        step is FetchBlockHashAt && !found && query.len() == 64 ==> next == SearchStep::FetchBlock,
        step is FetchBlockHashAt && !found && query.len() != 64 ==> next == SearchStep::ShowAddress,
        step == SearchStep::FetchBlock && found ==> next == SearchStep::ShowBlock,
        step == SearchStep::FetchBlock && !found ==> next == SearchStep::FetchTransaction,
        step == SearchStep::FetchTransaction && found ==> next == SearchStep::ShowTransaction,
        step == SearchStep::FetchTransaction && !found ==> next == SearchStep::ShowAddress,
        !is_lookup(step) ==> next == step,
{
    proof {
        lemma_search_answers(query, step, found);
    }
    match step {
        SearchStep::FetchBlockHashAt(_) => if found {
            SearchStep::ShowBlockAtHeight
        } else {
            after_height(query)
        },
        SearchStep::FetchBlock => if found {
            SearchStep::ShowBlock
        } else {
            SearchStep::FetchTransaction
        },
        SearchStep::FetchTransaction => if found {
            SearchStep::ShowTransaction
        } else {
            SearchStep::ShowAddress
        },
        _ => step,
    }
}

/// Law: the first question of a search depends only on whether the query
/// reads as an `i64` and on its length in bytes: a height is asked for as a
/// height; any other query of 64 bytes is asked for as a block hash; any
/// other query is taken for an address.
pub proof fn lemma_search_first_question(query: &str)
    ensures
        parse_i64_text(query@) matches Some(height) ==> first_step(query)
            == SearchStep::FetchBlockHashAt(height),
        parse_i64_text(query@) is None && query.len() == 64 ==> first_step(query)
            == SearchStep::FetchBlock,
        parse_i64_text(query@) is None && query.len() != 64 ==> first_step(query)
            == SearchStep::ShowAddress,
{
}

/// Law: what follows each answer of the node, for every query. A found
/// height leads to its block; a height not found leads on as any other
/// query (a block lookup for 64 bytes, else the address page). A block not
/// found is looked up as a transaction, whatever the query's characters; a
/// transaction not found leads to the address page. A page stays a page.
pub proof fn lemma_search_answers(query: &str, step: SearchStep, found: bool)
    ensures
        step is FetchBlockHashAt && found ==> next_step(query, step, found)
            == SearchStep::ShowBlockAtHeight,
        step is FetchBlockHashAt && !found && query.len() == 64 ==> next_step(query, step, found)
            == SearchStep::FetchBlock,
        step is FetchBlockHashAt && !found && query.len() != 64 ==> next_step(query, step, found)
            == SearchStep::ShowAddress,
        step == SearchStep::FetchBlock && found ==> next_step(query, step, found)
            == SearchStep::ShowBlock,
        step == SearchStep::FetchBlock && !found ==> next_step(query, step, found)
            == SearchStep::FetchTransaction,
        step == SearchStep::FetchTransaction && found ==> next_step(query, step, found)
            == SearchStep::ShowTransaction,
        step == SearchStep::FetchTransaction && !found ==> next_step(query, step, found)
            == SearchStep::ShowAddress,
        !is_lookup(step) ==> next_step(query, step, found) == step,
{
}

/// Law: a query of 64 bytes that is no height, when the node has no block but
/// has a transaction by that id, leads to the transaction's page; when it has
/// neither, to the address page.
pub proof fn lemma_search_finds_transactions(query: &str, found_transaction: bool)
    requires
        parse_i64_text(query@) is None,
        query.len() == 64,
    ensures
        next_step(query, next_step(query, first_step(query), false), found_transaction) == if found_transaction {
            SearchStep::ShowTransaction
        } else {
            SearchStep::ShowAddress
        },
{
}

/// Law: every search names a page after at most three questions to the node,
/// whatever the node answers; and the node is asked for a block or a
/// transaction by the query only when the query is 64 bytes long.
pub proof fn lemma_search_ends_in_a_page(query: &str, found1: bool, found2: bool, found3: bool)
    ensures
        ({
            let s1 = first_step(query);
            let s2 = next_step(query, s1, found1);
            let s3 = next_step(query, s2, found2);
            let s4 = next_step(query, s3, found3);
            &&& !is_lookup(s4)
            &&& (s1 == SearchStep::FetchBlock || s2 == SearchStep::FetchBlock || s3
                == SearchStep::FetchBlock || s1 == SearchStep::FetchTransaction || s2
                == SearchStep::FetchTransaction || s3 == SearchStep::FetchTransaction)
                ==> query.len() == 64
        }),
{
}

/// Law: a query that is the decimal text of a height is asked for as that
/// height first.
pub proof fn lemma_search_tries_height_first(query: &str, height: i64)
    requires
        query@ == crate::decimal::int_text(height as int),
    ensures
        first_step(query) == SearchStep::FetchBlockHashAt(height),
{
    crate::decimal::lemma_parse_reads_back_text(height);
}

} // verus!
