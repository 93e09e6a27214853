//! The objects of a decoded pack, parsed and sorted by kind.

use vstd::prelude::*;
use crate::errors::{ErrorView, GitError};
use crate::git::object::base::blob::{Blob, BlobView};
use crate::git::object::base::commit::{Commit, CommitView};
use crate::git::object::base::tag::{Tag, TagView};
use crate::git::object::base::tree::{Tree, TreeView};
use crate::git::object::base::{parsed, ObjClass, ObjClassView};
use crate::git::pack::cache::{names_offset, CacheView, PackObjectCache};

verus! {

/// The parsed objects of one or more packs, by kind.
pub struct ObjDecodedMap {
    pub trees: Vec<Tree>,
    pub blobs: Vec<Blob>,
    pub commits: Vec<Commit>,
    pub tags: Vec<Tag>,
}

/// The model of the parsed objects.
pub struct DecodedView {
    pub trees: Seq<TreeView>,
    pub blobs: Seq<BlobView>,
    pub commits: Seq<CommitView>,
    pub tags: Seq<TagView>,
}

/// The models of a sequence of trees.
pub open spec fn tree_views(trees: Seq<Tree>) -> Seq<TreeView> {
    Seq::new(trees.len(), |i: int| trees[i]@)
}

/// The models of a sequence of blobs.
pub open spec fn blob_views(blobs: Seq<Blob>) -> Seq<BlobView> {
    Seq::new(blobs.len(), |i: int| blobs[i]@)
}

/// The models of a sequence of commits.
pub open spec fn commit_views(commits: Seq<Commit>) -> Seq<CommitView> {
    Seq::new(commits.len(), |i: int| commits[i]@)
}

/// The models of a sequence of tags.
pub open spec fn tag_views(tags: Seq<Tag>) -> Seq<TagView> {
    Seq::new(tags.len(), |i: int| tags[i]@)
}

impl View for ObjDecodedMap {
    type V = DecodedView;

    open spec fn view(&self) -> DecodedView {
        DecodedView {
            trees: tree_views(self.trees@),
            blobs: blob_views(self.blobs@),
            commits: commit_views(self.commits@),
            tags: tag_views(self.tags@),
        }
    }
}

impl DecodedView {
    /// The objects with one more, behind those of its kind.
    pub open spec fn with(self, class: ObjClassView) -> DecodedView {
        match class {
            ObjClassView::TREE(t) => DecodedView { trees: self.trees.push(t), ..self },
            ObjClassView::BLOB(b) => DecodedView { blobs: self.blobs.push(b), ..self },
            ObjClassView::COMMIT(c) => DecodedView { commits: self.commits.push(c), ..self },
            ObjClassView::TAG(t) => DecodedView { tags: self.tags.push(t), ..self },
        }
    }

    /// The objects with several more, in order.
    pub open spec fn with_all(self, added: Seq<ObjClassView>) -> DecodedView
        decreases added.len(),
    {
        if added.len() == 0 {
            self
        } else {
            self.with_all(added.drop_last()).with(added.last())
        }
    }
}

/// Whether `class` is what an object of the cache parses to.
pub open spec fn stems_from(class: ObjClassView, cache: CacheView) -> bool {
    exists|o: u64| #[trigger]
        cache.by_offset.contains_key(o) && parsed(cache.by_offset[o].object) == Ok::<
            _,
            ErrorView,
        >(class)
}

/// Whether `added` is what the objects of the cache parse to: every one of
/// them stems from an object of the cache, and every object of the cache is
/// among them.
pub open spec fn parses_of(added: Seq<ObjClassView>, cache: CacheView) -> bool {
    &&& forall|k: int| 0 <= k < added.len() ==> stems_from(#[trigger] added[k], cache)
    &&& forall|o: u64| #[trigger]
        cache.by_offset.contains_key(o) ==> parsed(cache.by_offset[o].object) is Ok
            && added.contains(parsed(cache.by_offset[o].object)->Ok_0)
}

/// Whether some object of the cache fails to parse with the error `e`.
pub open spec fn fails_with(cache: CacheView, e: ErrorView) -> bool {
    exists|o: u64| #[trigger]
        cache.by_offset.contains_key(o) && parsed(cache.by_offset[o].object) == Err::<
            ObjClassView,
            _,
        >(e)
}

impl ObjDecodedMap {
    /// No objects.
    pub fn new() -> (map: ObjDecodedMap)
        ensures
            map@.trees.len() == 0,
            map@.blobs.len() == 0,
            map@.commits.len() == 0,
            map@.tags.len() == 0,
    {
        ObjDecodedMap {
            trees: Vec::new(),
            blobs: Vec::new(),
            commits: Vec::new(),
            tags: Vec::new(),
        }
    }

    /// Adds one parsed object behind those of its kind.
    fn insert(&mut self, class: ObjClass)
        ensures
            final(self)@ == old(self)@.with(class@),
    {
        match class {
            ObjClass::TREE(t) => {
                self.trees.push(t);
                proof {
                    assert(tree_views(self.trees@) =~= tree_views(old(self).trees@).push(t@));
                }
            },
            ObjClass::BLOB(b) => {
                self.blobs.push(b);
                proof {
                    assert(blob_views(self.blobs@) =~= blob_views(old(self).blobs@).push(b@));
                }
            },
            ObjClass::COMMIT(c) => {
                self.commits.push(c);
                proof {
                    assert(commit_views(self.commits@) =~= commit_views(old(self).commits@).push(
                        c@,
                    ));
                }
            },
            ObjClass::TAG(t) => {
                self.tags.push(t);
                proof {
                    assert(tag_views(self.tags@) =~= tag_views(old(self).tags@).push(t@));
                }
            },
        }
    }

    /// Parses the objects that the cache holds under their offsets and adds
    /// them, each behind those of its kind. Where one of them does not parse,
    /// nothing is added.
    pub fn update_from_cache(&mut self, cache: &PackObjectCache) -> (r: Result<(), GitError>)
        ensures
            match r {
                Ok(()) => exists|added: Seq<ObjClassView>|
                    parses_of(added, cache@) && final(self)@ == old(self)@.with_all(added),
                Err(e) => fails_with(cache@, e@) && final(self)@ == old(self)@,
            },
    {
        let entries = cache.entries();
        let mut fresh = ObjDecodedMap::new();
        let ghost mut added: Seq<ObjClassView> = Seq::empty();
        let mut i: usize = 0;
        proof {
            assert(fresh@.trees =~= Seq::<TreeView>::empty());
            assert(fresh@.blobs =~= Seq::<BlobView>::empty());
            assert(fresh@.commits =~= Seq::<CommitView>::empty());
            assert(fresh@.tags =~= Seq::<TagView>::empty());
        }
        while i < entries.len()
            invariant
                i <= entries@.len(),
                added.len() == i,
                fresh@ == nothing().with_all(added),
                forall|k: int|
                    0 <= k < entries@.len() ==> cache@.by_offset.contains_key(
                        (#[trigger] entries@[k]).0,
                    ),
                forall|k: int|
                    0 <= k < i ==> parsed(cache@.by_offset[entries@[k].0].object) == Ok::<
                        _,
                        ErrorView,
                    >(#[trigger] added[k]),
            decreases entries@.len() - i,
        {
            let offset = entries[i].0;
            let class = match cache.offset_object(offset) {
                None => {
                    return Err(GitError::CorruptObject);
                },
                Some(entry) => match ObjClass::parse(&entry.object) {
                    Ok(class) => class,
                    Err(e) => {
                        proof {
                            assert(cache@.by_offset.contains_key(offset));
                        }
                        return Err(e);
                    },
                },
            };
            proof {
                assert(added.push(class@).drop_last() =~= added);
                added = added.push(class@);
            }
            fresh.insert(class);
            i += 1;
        }
        proof {
            assert forall|k: int| 0 <= k < added.len() implies stems_from(
                #[trigger] added[k],
                cache@,
            ) by {
                assert(cache@.by_offset.contains_key(entries@[k].0));
            }
            assert forall|o: u64| #[trigger] cache@.by_offset.contains_key(o) implies parsed(
                cache@.by_offset[o].object,
            ) is Ok && added.contains(parsed(cache@.by_offset[o].object)->Ok_0) by {
                assert(names_offset(entries@, o));
                let k = choose|k: int| 0 <= k < entries@.len() && (#[trigger] entries@[k]).0 == o;
                assert(added[k] == parsed(cache@.by_offset[o].object)->Ok_0);
            }
            lemma_with_all_appends(self@, added);
        }
        self.trees.append(&mut fresh.trees);
        self.blobs.append(&mut fresh.blobs);
        self.commits.append(&mut fresh.commits);
        self.tags.append(&mut fresh.tags);
        proof {
            assert(tree_views(self.trees@) =~= old(self)@.trees + nothing().with_all(added).trees);
            assert(blob_views(self.blobs@) =~= old(self)@.blobs + nothing().with_all(added).blobs);
            assert(commit_views(self.commits@) =~= old(self)@.commits + nothing().with_all(
                added,
            ).commits);
            assert(tag_views(self.tags@) =~= old(self)@.tags + nothing().with_all(added).tags);
            assert(parses_of(added, cache@) && self@ == old(self)@.with_all(added));
        }
        Ok(())
    }
}

/// No parsed objects.
pub open spec fn nothing() -> DecodedView {
    DecodedView {
        trees: Seq::empty(),
        blobs: Seq::empty(),
        commits: Seq::empty(),
        tags: Seq::empty(),
    }
}

/// Adding objects to some that are there comes to the same as adding them to
/// none and appending the lists, kind by kind.
pub proof fn lemma_with_all_appends(view: DecodedView, added: Seq<ObjClassView>)
    ensures
        view.with_all(added) == (DecodedView {
            trees: view.trees + nothing().with_all(added).trees,
            blobs: view.blobs + nothing().with_all(added).blobs,
            commits: view.commits + nothing().with_all(added).commits,
            tags: view.tags + nothing().with_all(added).tags,
        }),
    decreases added.len(),
{
    let fresh = nothing().with_all(added);
    if added.len() == 0 {
        assert(view.trees + fresh.trees =~= view.trees);
        assert(view.blobs + fresh.blobs =~= view.blobs);
        assert(view.commits + fresh.commits =~= view.commits);
        assert(view.tags + fresh.tags =~= view.tags);
    } else {
        lemma_with_all_appends(view, added.drop_last());
        let before = nothing().with_all(added.drop_last());
        let whole = view.with_all(added);
        assert(whole.trees =~= view.trees + fresh.trees);
        assert(whole.blobs =~= view.blobs + fresh.blobs);
        assert(whole.commits =~= view.commits + fresh.commits);
        assert(whole.tags =~= view.tags + fresh.tags);
    }
}

impl Default for ObjDecodedMap {
    /// No objects.
    fn default() -> (map: ObjDecodedMap)
        ensures
            map@.trees.len() == 0,
            map@.blobs.len() == 0,
            map@.commits.len() == 0,
            map@.tags.len() == 0,
    {
        ObjDecodedMap::new()
    }
}

} // verus!
