//! Why a consolidation did not produce a graph.

use vstd::prelude::*;
use vstd::string::StringExecFns;

verus! {

/// Why a consolidation stopped.
#[derive(Debug)]
pub enum ConsolidationError {
    /// The graph holds these name and version pairs more than once. Each pair
    /// is listed once, in ascending order.
    DuplicateSources { duplicates: Vec<(String, String)> },
    /// An override names a target specification that selects no platform.
    UnresolvedTarget { target: String },
}

/// An error as plain values.
pub enum ErrorModel {
    DuplicateSources { duplicates: Seq<(Seq<char>, Seq<char>)> },
    UnresolvedTarget { target: Seq<char> },
}

impl DeepView for ConsolidationError {
    type V = ErrorModel;

    open spec fn deep_view(&self) -> ErrorModel {
        match self {
            ConsolidationError::DuplicateSources { duplicates } => ErrorModel::DuplicateSources {
                duplicates: duplicates.deep_view(),
            },
            ConsolidationError::UnresolvedTarget { target } => ErrorModel::UnresolvedTarget {
                target: target@,
            },
        }
    }
}

/// The pairs as `name version`, joined by a comma and a space.
pub open spec fn listed(sources: Seq<(Seq<char>, Seq<char>)>) -> Seq<char>
    decreases sources.len(),
{
    if sources.len() == 0 {
        Seq::empty()
    } else {
        let earlier = listed(sources.drop_last());
        let comma = if sources.len() == 1 {
            Seq::empty()
        } else {
            ", "@
        };
        earlier + comma + sources.last().0 + " "@ + sources.last().1
    }
}

/// The text that reports an error to the user. One duplicated pair is a
/// "duplicate source" with its "combination"; any other number are "duplicate
/// sources" with their "combinations". The number is that of the pairs, not
/// of the packages that have them.
pub open spec fn message_text(error: ErrorModel) -> Seq<char> {
    match error {
        ErrorModel::DuplicateSources { duplicates } => {
            let plural = if duplicates.len() == 1 {
                Seq::empty()
            } else {
                "s"@
            };
            "Got duplicate source"@ + plural + " for identical crate name and version combination"@
                + plural + ": "@ + listed(duplicates)
        },
        ErrorModel::UnresolvedTarget { target } => {
            "Target "@ + target + " in rule attribute doesn't map to any triple"@
        },
    }
}

impl ConsolidationError {
    /// The text that reports this error to the user.
    pub fn message(&self) -> (text: String)
        ensures
            text@ == message_text(self.deep_view()),
    {
        match self {
            ConsolidationError::DuplicateSources { duplicates } => {
                let one = duplicates.len() == 1;
                let mut text = String::from_str("Got duplicate source");
                if !one {
                    text.append("s");
                }
                text.append(" for identical crate name and version combination");
                if !one {
                    text.append("s");
                }
                text.append(": ");
                let ghost start = text@;
                let ghost sources = duplicates.deep_view();
                assert(start =~= start + listed(sources.take(0)));
                let mut i: usize = 0;
                while i < duplicates.len()
                    invariant
                        i <= duplicates.len(),
                        sources == duplicates.deep_view(),
                        text@ == start + listed(sources.take(i as int)),
                    decreases duplicates.len() - i,
                {
                    if i > 0 {
                        text.append(", ");
                    }
                    text.append(duplicates[i].0.as_str());
                    text.append(" ");
                    text.append(duplicates[i].1.as_str());
                    proof {
                        let now = sources.take(i + 1);
                        assert(now.drop_last() =~= sources.take(i as int));
                        assert(now.last() == sources[i as int]);
                        assert(text@ =~= start + listed(now));
                    }
                    i += 1;
                }
                proof {
                    assert(sources.take(i as int) =~= sources);
                    assert(text@ =~= message_text(self.deep_view()));
                }
                text
            },
            ConsolidationError::UnresolvedTarget { target } => {
                let mut text = String::from_str("Target ");
                text.append(target.as_str());
                text.append(" in rule attribute doesn't map to any triple");
                text
            },
        }
    }
}

} // verus!
