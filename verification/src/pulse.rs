use vstd::prelude::*;

verus! {

/// Where a reading falls against a symmetric threshold `t`: below `-t`,
/// above `t`, or anywhere else (inside the band, or not a number).
#[derive(Clone, Copy, Debug, PartialEq, Eq, Structural)]
pub enum Band {
    Below,
    Within,
    Above,
}

/// The leverage read of a perpetual futures market.
#[derive(Clone, Copy, Debug, PartialEq, Eq, Structural)]
pub enum Froth {
    /// Positive, elevated funding while open interest is rising: leverage building up.
    Building,
    /// Negative funding, or open interest falling meaningfully: leverage flushing out.
    Resetting,
    Neutral,
}

/// Reads leverage conditions from where the funding rate stands against the
/// "hot funding" band and where the open-interest change stands against the
/// "meaningful move" band: hot positive funding alongside rising open interest
/// is a crowded long book building; otherwise, negative funding or a real
/// open-interest drawdown is a flush; anything else is neutral.
pub fn classify(funding: Band, oi_change: Band) -> (r: Froth)
    ensures
        r == Froth::Building <==> (funding == Band::Above && oi_change == Band::Above),
        r == Froth::Resetting <==> !(funding == Band::Above && oi_change == Band::Above) && (
        funding == Band::Below || oi_change == Band::Below),
        r == Froth::Neutral <==> !(funding == Band::Above && oi_change == Band::Above) && funding
            != Band::Below && oi_change != Band::Below,
{
    if funding == Band::Above && oi_change == Band::Above {
        Froth::Building
    } else if funding == Band::Below || oi_change == Band::Below {
        Froth::Resetting
    } else {
        Froth::Neutral
    }
}

/// The oldest and the newest entry of an open-interest history (oldest
/// first), or `None` when the history is empty.
pub fn history_endpoints<V: Copy>(history: &Vec<V>) -> (r: Option<(V, V)>)
    ensures
        r is None <==> history.len() == 0,
        r matches Some((first, last)) ==> first == history@[0] && last == history@.last(),
{
    if history.len() == 0 {
        None
    } else {
        Some((history[0], history[history.len() - 1]))
    }
}

} // verus!
