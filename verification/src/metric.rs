//! The selectable distance metrics and embedding providers.

use vstd::prelude::*;
use vstd::string::*;

verus! {

/// How two embedding vectors are scored against each other.
#[derive(Clone, Copy, Debug, PartialEq, Eq, Structural)]
pub enum DistanceMetric {
    Cosine,
    L2,
    Dot,
    Manhattan,
}

impl DistanceMetric {
    /// The metric's name as it is written on the command line.
    pub open spec fn spec_name(&self) -> Seq<char> {
        match self {
            DistanceMetric::Cosine => seq!['c', 'o', 's', 'i', 'n', 'e'],
            DistanceMetric::L2 => seq!['l', '2'],
            DistanceMetric::Dot => seq!['d', 'o', 't'],
            DistanceMetric::Manhattan => seq!['m', 'a', 'n', 'h', 'a', 't', 't', 'a', 'n'],
        }
    }

    /// Whether a larger score means a closer pair. Cosine similarity and the
    /// dot product grow with similarity; the two distances shrink.
    pub open spec fn spec_higher_is_better(&self) -> bool {
        *self == DistanceMetric::Cosine || *self == DistanceMetric::Dot
    }

    /// The metric's name: `cosine`, `l2`, `dot` or `manhattan`.
    pub fn name(&self) -> (text: String)
        ensures
            text@ == self.spec_name(),
    {
        proof {
            reveal_strlit("cosine");
            reveal_strlit("l2");
            reveal_strlit("dot");
            reveal_strlit("manhattan");
        }
        let text = match self {
            DistanceMetric::Cosine => String::from_str("cosine"),
            DistanceMetric::L2 => String::from_str("l2"),
            DistanceMetric::Dot => String::from_str("dot"),
            DistanceMetric::Manhattan => String::from_str("manhattan"),
        };
        assert(text@ =~= self.spec_name());
        text
    }

    /// The direction in which pairs scored with this metric are ranked.
    #[verifier::when_used_as_spec(spec_higher_is_better)]
    pub fn higher_is_better(&self) -> (higher: bool)
        ensures
            higher == self.spec_higher_is_better(),
    {
        match self {
            DistanceMetric::Cosine => true,
            DistanceMetric::L2 => false,
            DistanceMetric::Dot => true,
            DistanceMetric::Manhattan => false,
        }
    }
}

/// The service that turns the input strings into embedding vectors.
#[derive(Clone, Copy, Debug, PartialEq, Eq, Structural)]
pub enum Provider {
    Openai,
    Cohere,
}

impl Provider {
    /// The provider's name as it is written on the command line.
    pub open spec fn spec_name(&self) -> Seq<char> {
        match self {
            Provider::Openai => seq!['o', 'p', 'e', 'n', 'a', 'i'],
            Provider::Cohere => seq!['c', 'o', 'h', 'e', 'r', 'e'],
        }
    }

    /// The environment variable that holds the provider's API key.
    pub open spec fn spec_credential_variable(&self) -> Seq<char> {
        match self {
            Provider::Openai => seq![
                'O', 'P', 'E', 'N', 'A', 'I', '_', 'A', 'P', 'I', '_', 'K', 'E', 'Y',
            ],
            Provider::Cohere => seq![
                'C', 'O', 'H', 'E', 'R', 'E', '_', 'A', 'P', 'I', '_', 'H', 'E', 'R', 'E',
            ],
        }
    }

    /// The provider's name: `openai` or `cohere`.
    pub fn name(&self) -> (text: String)
        ensures
            text@ == self.spec_name(),
    {
        proof {
            reveal_strlit("openai");
            reveal_strlit("cohere");
        }
        let text = match self {
            Provider::Openai => String::from_str("openai"),
            Provider::Cohere => String::from_str("cohere"),
        };
        assert(text@ =~= self.spec_name());
        text
    }

    /// The name of the environment variable from which the provider's API
    /// key is read.
    pub fn credential_variable(&self) -> (text: String)
        ensures
            text@ == self.spec_credential_variable(),
    {
        proof {
            reveal_strlit("OPENAI_API_KEY");
            reveal_strlit("COHERE_API_HERE");
        }
        let text = match self {
            Provider::Openai => String::from_str("OPENAI_API_KEY"),
            Provider::Cohere => String::from_str("COHERE_API_HERE"),
        };
        assert(text@ =~= self.spec_credential_variable());
        text
    }
}

} // verus!
