//! How the next peer to ask is picked.

use crate::text::same_text;
use vstd::prelude::*;

verus! {

/// How the next peer to ask is picked.
#[derive(Clone, Copy, Debug, PartialEq, Eq, Structural)]
pub enum PeerStrategy {
    /// Any peer, all alike.
    Random,
    /// Any peer, the likelier the higher its score.
    WeightedRandom,
    /// The peer with the highest score.
    Best,
    /// The peer with the highest average score.
    Avg,
}

impl Default for PeerStrategy {
    fn default() -> (r: PeerStrategy)
        ensures
            r == PeerStrategy::WeightedRandom,
    {
        PeerStrategy::WeightedRandom
    }
}

/// What is said of a name that no strategy has.
pub open spec fn unknown_strategy(name: Seq<char>) -> Seq<char> {
    "Unknown peer strategy: "@ + name
}

/// A strategy's name is read as that strategy. Any other text is an error, which quotes it.
pub open spec fn reads_as(text: Seq<char>, r: Result<PeerStrategy, String>) -> bool {
    &&& match r {
        Ok(strategy) => strategy.name() == text,
        Err(message) => {
            &&& message@ == unknown_strategy(text)
            &&& forall|strategy: PeerStrategy| #[trigger] strategy.name() != text
        },
    }
    &&& forall|strategy: PeerStrategy| #[trigger]
        strategy.name() == text ==> r == Ok::<PeerStrategy, String>(strategy)
}

impl PeerStrategy {
    /// The strategy's name in settings and messages.
    pub open spec fn name(self) -> Seq<char> {
        match self {
            PeerStrategy::Random => "random"@,
            PeerStrategy::WeightedRandom => "weighted"@,
            PeerStrategy::Best => "top"@,
            PeerStrategy::Avg => "avg"@,
        }
    }

    /// Writes the strategy's name.
    pub fn to_text(&self) -> (r: &'static str)
        ensures
            r@ == self.name(),
    {
        match self {
            PeerStrategy::Random => "random",
            PeerStrategy::WeightedRandom => "weighted",
            PeerStrategy::Best => "top",
            PeerStrategy::Avg => "avg",
        }
    }

    /// The name of the strategy's variant.
    pub open spec fn variant_name(self) -> Seq<char> {
        match self {
            PeerStrategy::Random => "Random"@,
            PeerStrategy::WeightedRandom => "WeightedRandom"@,
            PeerStrategy::Best => "Best"@,
            PeerStrategy::Avg => "Avg"@,
        }
    }

    /// Writes the name of the strategy's variant.
    pub fn variant_text(&self) -> (r: &'static str)
        ensures
            r@ == self.variant_name(),
    {
        match self {
            PeerStrategy::Random => "Random",
            PeerStrategy::WeightedRandom => "WeightedRandom",
            PeerStrategy::Best => "Best",
            PeerStrategy::Avg => "Avg",
        }
    }

    /// Reads a strategy's name. Any other text is an error, which quotes it.
    pub fn from_str(s: &str) -> (r: Result<PeerStrategy, String>)
        ensures
            reads_as(s@, r),
    {
        let r = if same_text(s, "random") {
            Ok(PeerStrategy::Random)
        } else if same_text(s, "weighted") {
            Ok(PeerStrategy::WeightedRandom)
        } else if same_text(s, "top") {
            Ok(PeerStrategy::Best)
        } else if same_text(s, "avg") {
            Ok(PeerStrategy::Avg)
        } else {
            Err("Unknown peer strategy: ".to_string().concat(s))
        };
        proof {
            if let Ok(read) = r {
                assert forall|strategy: PeerStrategy| #[trigger]
                    strategy.name() == s@ implies strategy == read by {
                    law_names_differ(strategy, read);
                }
            }
        }
        r
    }
}

impl std::str::FromStr for PeerStrategy {
    type Err = String;

    /// Reads a strategy's name. Any other text is an error, which quotes it.
    fn from_str(s: &str) -> (r: Result<PeerStrategy, String>)
        ensures
            reads_as(s@, r),
    {
        PeerStrategy::from_str(s)
    }
}

/// Different strategies have different names, so that a name tells its strategy.
pub proof fn law_names_differ(one: PeerStrategy, other: PeerStrategy)
    ensures
        one.name() == other.name() ==> one == other,
{
    reveal_strlit("random");
    reveal_strlit("weighted");
    reveal_strlit("top");
    reveal_strlit("avg");
    assert("random"@.len() == 6 && "weighted"@.len() == 8);
    assert("top"@.len() == 3 && "avg"@.len() == 3);
    assert("top"@[0] == 't' && "avg"@[0] == 'a');
}

} // verus!
