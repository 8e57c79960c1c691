use vstd::prelude::*;
use vstd::string::StringExecFns;

verus! {

/// A lending pool to look up: protocol, chain and token symbol.
pub struct PoolQuery<'a> {
    pub project: &'a str,
    pub chain: &'a str,
    pub symbol: &'a str,
}

/// A pool as listed by the yield feed: what the lookup reads of it.
/// `tvl_rank` orders pools by total value locked exactly as `f64::total_cmp`
/// orders their TVL figures.
pub struct PoolCandidate {
    pub project: String,
    pub chain: String,
    pub symbol: String,
    pub has_apy: bool,
    pub tvl_rank: i64,
}

/// How an onchain lending yield reads against the risk-free rate.
#[derive(Clone, Copy, Debug, PartialEq, Eq, Structural)]
pub enum SpreadRead {
    /// Onchain APY beats the risk-free rate: a positive premium for smart
    /// contract, peg and counterparty risk.
    Rational,
    /// Onchain APY is below the risk-free rate (or equal to it): lending pays
    /// no more than doing nothing in a T-bill, before even weighing the extra risk.
    Irrational,
}

/// Reads the spread: rational exactly when the onchain APY is strictly above
/// the risk-free rate.
pub fn classify_spread(apy_above_risk_free: bool) -> (r: SpreadRead)
    ensures
        r == SpreadRead::Rational <==> apy_above_risk_free,
        r == SpreadRead::Irrational <==> !apy_above_risk_free,
{
    if apy_above_risk_free {
        SpreadRead::Rational
    } else {
        SpreadRead::Irrational
    }
}

/// Pool `i` is listed for the queried project, chain and symbol, and has an APY.
pub open spec fn eligible(pools: Seq<PoolCandidate>, q: PoolQuery, i: int) -> bool {
    &&& 0 <= i < pools.len()
    &&& pools[i].project@ == q.project@
    &&& pools[i].chain@ == q.chain@
    &&& pools[i].symbol@ == q.symbol@
    &&& pools[i].has_apy
}

/// Pool `i` is the answer to the query: an eligible pool with the highest
/// TVL, the last one listed among equals.
pub open spec fn is_best_pool(pools: Seq<PoolCandidate>, q: PoolQuery, i: int) -> bool {
    &&& eligible(pools, q, i)
    &&& forall|j: int| #[trigger] eligible(pools, q, j) ==> pools[j].tvl_rank <= pools[i].tvl_rank
    &&& forall|j: int| i < j && #[trigger] eligible(pools, q, j) ==> pools[j].tvl_rank < pools[i].tvl_rank
}

/// Some pool answers the query.
pub open spec fn has_eligible(pools: Seq<PoolCandidate>, q: PoolQuery) -> bool {
    exists|j: int| #[trigger] eligible(pools, q, j)
}

/// Resolves one query to its highest-TVL pool with an APY (the last one listed
/// among equals), or `None` when no pool with an APY matches it.
pub fn best_pool(pools: &Vec<PoolCandidate>, query: &PoolQuery) -> (r: Option<usize>)
    ensures
        r is None <==> !has_eligible(pools@, *query),
        r matches Some(i) ==> is_best_pool(pools@, *query, i as int),
        r matches Some(i) ==> i < pools.len() && pools@[i as int].has_apy && pools@[i as int].project@
            == query.project@ && pools@[i as int].chain@ == query.chain@ && pools@[i as int].symbol@
            == query.symbol@,
        r matches Some(i) ==> forall|j: int|
            0 <= j < pools.len() && (#[trigger] pools@[j]).has_apy && pools@[j].project@ == query.project@
                && pools@[j].chain@ == query.chain@ && pools@[j].symbol@ == query.symbol@ ==> pools@[j].tvl_rank
                <= pools@[i as int].tvl_rank && (j > i ==> pools@[j].tvl_rank < pools@[i as int].tvl_rank),
        r is None ==> forall|j: int|
            0 <= j < pools.len() ==> !((#[trigger] pools@[j]).has_apy && pools@[j].project@ == query.project@
                && pools@[j].chain@ == query.chain@ && pools@[j].symbol@ == query.symbol@),
{
    let project = String::from_str(query.project);
    let chain = String::from_str(query.chain);
    let symbol = String::from_str(query.symbol);
    let mut best: Option<usize> = None;
    let mut i: usize = 0;
    while i < pools.len()
        invariant
            i <= pools.len(),
            project@ == query.project@,
            chain@ == query.chain@,
            symbol@ == query.symbol@,
            best is None ==> forall|j: int| 0 <= j < i ==> !eligible(pools@, *query, j),
            best matches Some(b) ==> {
                &&& b < i
                &&& eligible(pools@, *query, b as int)
                &&& forall|j: int|
                    0 <= j < i && #[trigger] eligible(pools@, *query, j) ==> pools@[j].tvl_rank
                        <= pools@[b as int].tvl_rank
                &&& forall|j: int|
                    b < j < i && #[trigger] eligible(pools@, *query, j) ==> pools@[j].tvl_rank
                        < pools@[b as int].tvl_rank
            },
        decreases pools.len() - i,
    {
        let p = &pools[i];
        if p.has_apy && p.project == project && p.chain == chain && p.symbol == symbol {
            match best {
                None => {
                    best = Some(i);
                },
                Some(b) => {
                    if pools[b].tvl_rank <= p.tvl_rank {
                        best = Some(i);
                    }
                },
            }
        }
        i += 1;
    }
    proof {
        if best is None {
            assert forall|j: int| !#[trigger] eligible(pools@, *query, j) by {}
        }
        assert forall|j: int|
            0 <= j < pools.len() && (#[trigger] pools@[j]).has_apy && pools@[j].project@ == query.project@
                && pools@[j].chain@ == query.chain@ && pools@[j].symbol@ == query.symbol@ implies eligible(
            pools@,
            *query,
            j,
        ) by {}
    }
    best
}

/// Resolves every query to its pool, in order: `Ok` with one pool index per
/// query, or `Err` with the index of the first query that no pool answers.
pub fn resolve_pool_queries(pools: &Vec<PoolCandidate>, queries: &[PoolQuery]) -> (r: Result<
    Vec<usize>,
    usize,
>)
    ensures
        r is Ok <==> forall|k: int| 0 <= k < queries@.len() ==> has_eligible(pools@, #[trigger] queries@[k]),
        r matches Ok(v) ==> v.len() == queries@.len() && forall|k: int|
            0 <= k < v.len() ==> is_best_pool(pools@, queries@[k], #[trigger] v@[k] as int),
        r matches Err(k) ==> {
            &&& k < queries@.len()
            &&& !has_eligible(pools@, queries@[k as int])
            &&& forall|m: int| 0 <= m < k ==> has_eligible(pools@, #[trigger] queries@[m])
        },
{
    let mut out: Vec<usize> = Vec::new();
    let mut k: usize = 0;
    while k < queries.len()
        invariant
            k <= queries@.len(),
            out.len() == k,
            forall|m: int| 0 <= m < k ==> has_eligible(pools@, #[trigger] queries@[m]),
            forall|m: int| 0 <= m < k ==> is_best_pool(pools@, queries@[m], #[trigger] out@[m] as int),
        decreases queries@.len() - k,
    {
        match best_pool(pools, &queries[k]) {
            Some(i) => {
                out.push(i);
            },
            None => {
                return Err(k);
            },
        }
        k += 1;
    }
    Ok(out)
}

} // verus!
