//! Tags and sets of tags; matching is exact and case-sensitive.
use vstd::prelude::*;

verus! {

/// A set of tags, kept without duplicates.
#[derive(Clone, Debug)]
pub struct TagCollection {
    pub tags: Vec<String>,
}

/// Whether `t` is the view of one of `tags`.
pub open spec fn holds_tag(tags: Seq<String>, t: Seq<char>) -> bool {
    exists|i: int| 0 <= i < tags.len() && (#[trigger] tags[i])@ == t
}

impl View for TagCollection {
    type V = Set<Seq<char>>;

    open spec fn view(&self) -> Set<Seq<char>> {
        Set::new(|t: Seq<char>| holds_tag(self.tags@, t))
    }
}

impl TagCollection {
    /// The empty collection.
    pub fn empty() -> (r: TagCollection)
        ensures
            r@ == Set::<Seq<char>>::empty(),
    {
        let r = TagCollection { tags: Vec::new() };
        assert(r@ =~= Set::<Seq<char>>::empty());
        r
    }

    /// Whether `tag` is in the collection.
    pub fn contains(&self, tag: &String) -> (r: bool)
        ensures
            r == self@.contains(tag@),
    {
        let mut i: usize = 0;
        while i < self.tags.len()
            invariant
                i <= self.tags.len(),
                forall|j: int| 0 <= j < i ==> (#[trigger] self.tags@[j])@ != tag@,
            decreases self.tags.len() - i,
        {
            if self.tags[i] == *tag {
                assert(holds_tag(self.tags@, tag@));
                return true;
            }
            i += 1;
        }
        false
    }

    /// Adds `tag`; a tag already present is not added twice.
    pub fn insert(&mut self, tag: String)
        ensures
            final(self)@ == old(self)@.insert(tag@),
    {
        if !self.contains(&tag) {
            let ghost before = self.tags@;
            let ghost t = tag@;
            self.tags.push(tag);
            assert forall|x: Seq<char>| holds_tag(self.tags@, x) == (holds_tag(before, x) || x == t) by {
                if holds_tag(self.tags@, x) {
                    let i = choose|i: int| 0 <= i < self.tags@.len() && (#[trigger] self.tags@[i])@ == x;
                    if i < before.len() {
                        assert(before[i] == self.tags@[i]);
                    }
                }
                if holds_tag(before, x) {
                    let i = choose|i: int| 0 <= i < before.len() && (#[trigger] before[i])@ == x;
                    assert(self.tags@[i] == before[i]);
                }
                if x == t {
                    assert(self.tags@[before.len() as int]@ == t);
                }
            }
        }
        assert(self@ =~= old(self)@.insert(tag@));
    }

    /// The collection of the given tags.
    pub fn from_strings(tags: &Vec<String>) -> (r: TagCollection)
        ensures
            r@ == Set::new(|t: Seq<char>| holds_tag(tags@, t)),
    {
        let mut r = TagCollection::empty();
        let mut i: usize = 0;
        while i < tags.len()
            invariant
                i <= tags@.len(),
                r@ == Set::new(|t: Seq<char>| holds_tag(tags@.take(i as int), t)),
            decreases tags.len() - i,
        {
            let ghost before = r@;
            r.insert(tags[i].clone());
            assert(r@ =~= Set::new(|t: Seq<char>| holds_tag(tags@.take(i + 1), t))) by {
                assert forall|t: Seq<char>| r@.contains(t) <==> holds_tag(tags@.take(i + 1), t) by {
                    if holds_tag(tags@.take(i + 1), t) && t != tags@[i as int]@ {
                        let j = choose|j: int| 0 <= j < i + 1 && (#[trigger] tags@.take(i + 1)[j])@ == t;
                        assert(tags@.take(i as int)[j] == tags@.take(i + 1)[j]);
                    }
                    if before.contains(t) {
                        let j = choose|j: int| 0 <= j < i && (#[trigger] tags@.take(i as int)[j])@ == t;
                        assert(tags@.take(i + 1)[j] == tags@.take(i as int)[j]);
                    }
                    if t == tags@[i as int]@ {
                        assert(tags@.take(i + 1)[i as int] == tags@[i as int]);
                    }
                }
            }
            i += 1;
        }
        assert(tags@.take(tags@.len() as int) =~= tags@);
        r
    }

    /// The collection of the given tags.
    pub fn from_strs(tags: &[&str]) -> (r: TagCollection)
        ensures
            r@ == Set::new(|t: Seq<char>| exists|i: int| 0 <= i < tags@.len() && (#[trigger] tags@[i])@ == t),
    {
        let mut owned: Vec<String> = Vec::new();
        let mut i: usize = 0;
        while i < tags.len()
            invariant
                i <= tags@.len(),
                owned@.len() == i,
                forall|j: int| 0 <= j < i ==> (#[trigger] owned@[j])@ == tags@[j]@,
            decreases tags.len() - i,
        {
            owned.push(tags[i].to_owned());
            i += 1;
        }
        let r = TagCollection::from_strings(&owned);
        assert(r@ =~= Set::new(|t: Seq<char>| exists|i: int| 0 <= i < tags@.len() && (#[trigger] tags@[i])@ == t)) by {
            assert forall|t: Seq<char>| holds_tag(owned@, t) <==> exists|i: int| 0 <= i < tags@.len() && (#[trigger] tags@[i])@ == t by {
                if holds_tag(owned@, t) {
                    let j = choose|j: int| 0 <= j < owned@.len() && (#[trigger] owned@[j])@ == t;
                    assert(tags@[j]@ == t);
                }
                if exists|i: int| 0 <= i < tags@.len() && (#[trigger] tags@[i])@ == t {
                    let j = choose|j: int| 0 <= j < tags@.len() && (#[trigger] tags@[j])@ == t;
                    assert(owned@[j]@ == t);
                }
            }
        }
        r
    }

    /// Whether every tag of `self` is in `other`.
    pub fn is_subset_of(&self, other: &TagCollection) -> (r: bool)
        ensures
            r == self@.subset_of(other@),
    {
        let mut i: usize = 0;
        while i < self.tags.len()
            invariant
                i <= self.tags.len(),
                forall|j: int| 0 <= j < i ==> other@.contains((#[trigger] self.tags@[j])@),
            decreases self.tags.len() - i,
        {
            if !other.contains(&self.tags[i]) {
                assert(self@.contains(self.tags@[i as int]@));
                return false;
            }
            i += 1;
        }
        assert forall|t: Seq<char>| self@.contains(t) implies other@.contains(t) by {
            let j = choose|j: int| 0 <= j < self.tags@.len() && (#[trigger] self.tags@[j])@ == t;
        }
        true
    }

    /// The tags in both collections.
    pub fn intersect(&self, other: &TagCollection) -> (r: TagCollection)
        ensures
            r@ == self@.intersect(other@),
    {
        let mut r = TagCollection::empty();
        let mut i: usize = 0;
        while i < self.tags.len()
            invariant
                i <= self.tags.len(),
                r@ == Set::new(|t: Seq<char>| exists|j: int| 0 <= j < i && (#[trigger] self.tags@[j])@ == t).intersect(other@),
            decreases self.tags.len() - i,
        {
            let ghost before = r@;
            if other.contains(&self.tags[i]) {
                r.insert(self.tags[i].clone());
            }
            assert(r@ =~= Set::new(|t: Seq<char>| exists|j: int| 0 <= j < i + 1 && (#[trigger] self.tags@[j])@ == t).intersect(other@)) by {
                assert forall|t: Seq<char>| r@.contains(t) <==> (other@.contains(t) && exists|j: int| 0 <= j < i + 1 && (#[trigger] self.tags@[j])@ == t) by {
                    if t == self.tags@[i as int]@ {
                    } else if exists|j: int| 0 <= j < i + 1 && (#[trigger] self.tags@[j])@ == t {
                        let j = choose|j: int| 0 <= j < i + 1 && (#[trigger] self.tags@[j])@ == t;
                        assert(j < i);
                    }
                }
            }
            i += 1;
        }
        assert(r@ =~= self@.intersect(other@));
        r
    }
}

} // verus!
