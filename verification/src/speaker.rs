//! The speaker registry's policy: which label a stretch of audio gets, given
//! how it compares with the speakers already known.
//!
//! The registry holds no audio and no embeddings. Whoever matches the
//! embeddings keeps one centroid per label and tells the registry which
//! centroid is nearest to a new sample, whether it is similar enough, and
//! which label a new centroid gets.

use vstd::prelude::*;
use crate::text::{decimal, decimal_string};

verus! {

/// The centroid nearest to a sample.
#[derive(Clone, Copy, Debug, PartialEq, Eq, Structural)]
pub struct Nearest {
    /// The label of that centroid.
    pub id: usize,
    /// Whether the sample's similarity to it is above the threshold.
    pub similar: bool,
}

/// What the registry decided for one sample.
#[derive(Clone, Copy, Debug, PartialEq, Eq, Structural)]
pub enum Assignment {
    /// The sample belongs to a speaker already registered.
    Existing(usize),
    /// The sample opened a new centroid, with this label.
    Opened(usize),
    /// No label could be given.
    Unknown,
}

/// The label that stands for a speaker who could not be told.
pub open spec fn unknown_label() -> Seq<char> {
    seq!['?']
}

impl Assignment {
    /// The text of the label: the speaker's number in decimal, or `?`.
    pub open spec fn label_text(self) -> Seq<char> {
        match self {
            Assignment::Existing(id) => decimal(id as nat),
            Assignment::Opened(id) => decimal(id as nat),
            Assignment::Unknown => unknown_label(),
        }
    }

    /// The label as text.
    pub fn label(&self) -> (r: String)
        ensures
            r@ == self.label_text(),
    {
        match self {
            Assignment::Existing(id) => decimal_string(*id),
            Assignment::Opened(id) => decimal_string(*id),
            Assignment::Unknown => {
                proof {
                    reveal_strlit("?");
                }
                assert("?"@ =~= unknown_label());
                "?".to_owned()
            },
        }
    }
}

/// A registry of at most `max_speakers` speakers.
pub struct SpeakerRegistry {
    max_speakers: usize,
    count: usize,
}

/// What `assign` decides: while there is room, a sample that is not similar
/// to its nearest centroid opens a new one, with the label `fresh`; once
/// the registry is full, every sample goes to its nearest centroid, similar
/// or not.
pub open spec fn decide(
    count: nat,
    max_speakers: nat,
    nearest: Option<Nearest>,
    fresh: usize,
) -> Assignment {
    if count >= max_speakers {
        match nearest {
            Some(n) => Assignment::Existing(n.id),
            None => Assignment::Unknown,
        }
    } else {
        match nearest {
            Some(n) if n.similar => Assignment::Existing(n.id),
            _ => Assignment::Opened(fresh),
        }
    }
}

impl SpeakerRegistry {
    #[verifier::type_invariant]
    spec fn wf(&self) -> bool {
        self.count <= self.max_speakers
    }

    /// The largest number of speakers the registry will hold.
    pub closed spec fn capacity(&self) -> nat {
        self.max_speakers as nat
    }

    /// The number of speakers registered.
    pub closed spec fn registered(&self) -> nat {
        self.count as nat
    }

    /// An empty registry with room for `max_speakers` speakers.
    pub fn new(max_speakers: usize) -> (r: Self)
        ensures
            r.capacity() == max_speakers,
            r.registered() == 0,
    {
        SpeakerRegistry { max_speakers, count: 0 }
    }

    /// The largest number of speakers the registry will hold.
    pub fn max_speakers(&self) -> (r: usize)
        ensures
            r == self.capacity(),
    {
        self.max_speakers
    }

    /// The number of speakers registered.
    pub fn len(&self) -> (r: usize)
        ensures
            r == self.registered(),
            r <= self.capacity(),
    {
        proof {
            use_type_invariant(self);
        }
        self.count
    }

    /// Whether every place is taken, so that no new speaker will be opened.
    pub fn is_full(&self) -> (r: bool)
        ensures
            r == (self.registered() == self.capacity()),
    {
        self.count == self.max_speakers
    }

    /// Decides the label of one sample and registers a new speaker where
    /// the decision opens one. `nearest` is `None` when no speaker is
    /// known or none is near; `fresh` is the label that a new speaker gets.
    pub fn assign(&mut self, nearest: Option<Nearest>, fresh: usize) -> (r: Assignment)
        ensures
            r == decide(old(self).registered(), old(self).capacity(), nearest, fresh),
            final(self).capacity() == old(self).capacity(),
            final(self).registered() == old(self).registered() + if r is Opened {
                1nat
            } else {
                0nat
            },
            final(self).registered() <= final(self).capacity(),
    {
        proof {
            use_type_invariant(&*self);
        }
        if self.count == self.max_speakers {
            match nearest {
                Some(n) => Assignment::Existing(n.id),
                None => Assignment::Unknown,
            }
        } else {
            match nearest {
                Some(n) if n.similar => Assignment::Existing(n.id),
                _ => {
                    self.count = self.count + 1;
                    Assignment::Opened(fresh)
                },
            }
        }
    }
}

/// Once the registry is full, no sample opens a new speaker, however
/// dissimilar it is to the speakers known: it gets the label of its nearest
/// centroid.
pub proof fn lemma_full_registry_opens_none(max_speakers: nat, nearest: Nearest, fresh: usize)
    ensures
        decide(max_speakers, max_speakers, Some(nearest), fresh) == Assignment::Existing(nearest.id),
{
}

/// A speaker is opened only while there is room.
pub proof fn lemma_opened_within_capacity(
    count: nat,
    max_speakers: nat,
    nearest: Option<Nearest>,
    fresh: usize,
)
    ensures
        decide(count, max_speakers, nearest, fresh) is Opened ==> count < max_speakers,
{
}

} // verus!
