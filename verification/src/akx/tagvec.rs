use vstd::prelude::*;

use crate::akx::knowledge::KnowledgeKindTag;
use smallvec::SmallVec;

verus! {

/// A short vector of knowledge kinds, held inline up to four of them
/// (`smallvec::SmallVec`).
#[derive(Debug)]
#[verifier::external_body]
pub struct TagVec {
    inner: SmallVec<[KnowledgeKindTag; 4]>,
}

/// The kinds that a `TagVec` holds, in order.
pub uninterp spec fn tagvec_contents(v: TagVec) -> Seq<KnowledgeKindTag>;

impl View for TagVec {
    type V = Seq<KnowledgeKindTag>;

    open spec fn view(&self) -> Seq<KnowledgeKindTag> {
        tagvec_contents(*self)
    }
}

impl TagVec {
    /// `SmallVec::from_slice`: the result holds the slice's kinds in order.
    #[verifier::external_body]
    pub(crate) fn copy_of(tags: &[KnowledgeKindTag]) -> (v: Self)
        ensures
            tagvec_contents(v) == tags@,
    {
        TagVec { inner: SmallVec::from_slice(tags) }
    }

    /// `SmallVec::as_slice`: the slice shows the contents in order.
    #[verifier::external_body]
    pub(crate) fn slice(&self) -> (tags: &[KnowledgeKindTag])
        ensures
            tags@ == tagvec_contents(*self),
    {
        self.inner.as_slice()
    }

    /// A vector of the given kinds.
    pub fn from_slice(tags: &[KnowledgeKindTag]) -> (v: Self)
        ensures
            v@ == tags@,
    {
        TagVec::copy_of(tags)
    }

    /// The kinds as a slice.
    pub fn as_slice(&self) -> (tags: &[KnowledgeKindTag])
        ensures
            tags@ == self@,
    {
        self.slice()
    }

    /// Whether the list is empty or names a kind.
    pub fn admits(&self, tag: KnowledgeKindTag) -> (b: bool)
        ensures
            b == (self@.len() == 0 || self@.contains(tag)),
    {
        let tags: &[KnowledgeKindTag] = self.slice();
        if tags.len() == 0 {
            return true;
        }
        let mut i: usize = 0;
        while i < tags.len()
            invariant
                i <= tags@.len(),
                tags@ == self@,
                forall|j: int| 0 <= j < i ==> self@[j] != tag,
            decreases tags@.len() - i,
        {
            if tags[i] == tag {
                assert(self@[i as int] == tag);
                return true;
            }
            i += 1;
        }
        false
    }
}

impl Clone for TagVec {
    fn clone(&self) -> (v: Self)
        ensures
            v@ == self@,
    {
        TagVec::copy_of(self.slice())
    }
}

} // verus!
