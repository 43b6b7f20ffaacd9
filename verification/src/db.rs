//! The relational store behind the browser, modelled as three tables.
//!
//! `images` holds one row per known file, keyed by a unique path;
//! `tags` one row per known tag name; `image_tags` the many-to-many
//! pairing of the two. Rows are never duplicated: inserting an existing
//! path, name or pair leaves the table unchanged, and deleting an image
//! removes its row together with every pairing that references it.

use vstd::prelude::*;

use crate::catalog::{
    insert_tag_if_absent, lemma_insert_if_absent_contains, strictly_sorted,
};

verus! {

/// A row of the `images` table: a unique id and a unique file path.
pub struct ImageRow {
    pub id: u64,
    pub path: String,
}

/// A row of the `tags` table: a unique id and a unique tag name.
pub struct TagRow {
    pub id: u64,
    pub name: String,
}

/// A row of the `image_tags` table: one tag applied to one image.
#[derive(Clone, Copy)]
pub struct TagLink {
    pub image_id: u64,
    pub tag_id: u64,
}

/// The id of the first image row with the given path, if any.
pub open spec fn image_id_of(rows: Seq<ImageRow>, path: Seq<char>) -> Option<u64>
    decreases rows.len(),
{
    if rows.len() == 0 {
        None
    } else if rows[0].path@ == path {
        Some(rows[0].id)
    } else {
        image_id_of(rows.drop_first(), path)
    }
}

/// The id of the first tag row with the given name, if any.
pub open spec fn tag_id_of(rows: Seq<TagRow>, name: Seq<char>) -> Option<u64>
    decreases rows.len(),
{
    if rows.len() == 0 {
        None
    } else if rows[0].name@ == name {
        Some(rows[0].id)
    } else {
        tag_id_of(rows.drop_first(), name)
    }
}

/// Whether some image row carries this id.
pub open spec fn has_image_id(rows: Seq<ImageRow>, id: u64) -> bool {
    exists|i: int| 0 <= i < rows.len() && rows[i].id == id
}

/// Whether some tag row carries this id.
pub open spec fn has_tag_id(rows: Seq<TagRow>, id: u64) -> bool {
    exists|i: int| 0 <= i < rows.len() && rows[i].id == id
}

/// Whether the pairing of this image and this tag is on record.
pub open spec fn has_link(links: Seq<TagLink>, image_id: u64, tag_id: u64) -> bool {
    exists|k: int| 0 <= k < links.len() && links[k].image_id == image_id && links[k].tag_id
        == tag_id
}

/// The pairings that remain when one pairing is taken out (the first
/// occurrence; under the table invariant there is at most one).
pub open spec fn remove_link(links: Seq<TagLink>, image_id: u64, tag_id: u64) -> Seq<TagLink>
    decreases links.len(),
{
    if links.len() == 0 {
        links
    } else if links[0].image_id == image_id && links[0].tag_id == tag_id {
        links.drop_first()
    } else {
        seq![links[0]] + remove_link(links.drop_first(), image_id, tag_id)
    }
}

/// The pairings that survive deleting one image: all those that reference
/// a different image.
pub open spec fn links_without_image(links: Seq<TagLink>, image_id: u64) -> Seq<TagLink>
    decreases links.len(),
{
    if links.len() == 0 {
        links
    } else {
        let rest = links_without_image(links.drop_first(), image_id);
        if links[0].image_id == image_id {
            rest
        } else {
            seq![links[0]] + rest
        }
    }
}

/// The image rows that remain when the row with the given path is deleted.
pub open spec fn remove_image_row(rows: Seq<ImageRow>, path: Seq<char>) -> Seq<ImageRow>
    decreases rows.len(),
{
    if rows.len() == 0 {
        rows
    } else if rows[0].path@ == path {
        rows.drop_first()
    } else {
        seq![rows[0]] + remove_image_row(rows.drop_first(), path)
    }
}

/// No pairing is on record twice.
pub open spec fn links_unique(links: Seq<TagLink>) -> bool {
    forall|k: int, l: int|
        0 <= k < l < links.len() ==> !((#[trigger] links[k]).image_id
            == (#[trigger] links[l]).image_id && links[k].tag_id == links[l].tag_id)
}

/// Every pairing references an existing image row and an existing tag row.
pub open spec fn links_reference(
    links: Seq<TagLink>,
    images: Seq<ImageRow>,
    tags: Seq<TagRow>,
) -> bool {
    forall|k: int|
        0 <= k < links.len() ==> has_image_id(images, (#[trigger] links[k]).image_id)
            && has_tag_id(tags, links[k].tag_id)
}

/// Whether some tag row carries this name.
pub open spec fn has_tag_name(tags: Seq<TagRow>, name: Seq<char>) -> bool {
    exists|k: int| 0 <= k < tags.len() && (#[trigger] tags[k]).name@ == name
}

/// Whether the image with this id carries a tag with this name.
pub open spec fn image_has_tag_name(
    tags: Seq<TagRow>,
    links: Seq<TagLink>,
    image_id: u64,
    name: Seq<char>,
) -> bool {
    exists|k: int|
        0 <= k < tags.len() && (#[trigger] tags[k]).name@ == name && has_link(
            links,
            image_id,
            tags[k].id,
        )
}

/// Whether any tag at all is applied to the image with this id.
pub open spec fn image_is_tagged(links: Seq<TagLink>, image_id: u64) -> bool {
    exists|k: int| 0 <= k < links.len() && (#[trigger] links[k]).image_id == image_id
}

/// The paths of the images that carry the tag with this id, in table order.
pub open spec fn paths_with_tag(
    images: Seq<ImageRow>,
    links: Seq<TagLink>,
    tag_id: u64,
) -> Seq<Seq<char>>
    decreases images.len(),
{
    if images.len() == 0 {
        Seq::empty()
    } else {
        let rest = paths_with_tag(images.drop_first(), links, tag_id);
        if has_link(links, images[0].id, tag_id) {
            seq![images[0].path@] + rest
        } else {
            rest
        }
    }
}

/// The paths of the first `cap` images that carry no tag, in table order.
pub open spec fn untagged_paths_capped(
    images: Seq<ImageRow>,
    links: Seq<TagLink>,
    cap: nat,
) -> Seq<Seq<char>>
    decreases images.len(),
{
    if images.len() == 0 || cap == 0 {
        Seq::empty()
    } else if !image_is_tagged(links, images[0].id) {
        seq![images[0].path@] + untagged_paths_capped(
            images.drop_first(),
            links,
            (cap - 1) as nat,
        )
    } else {
        untagged_paths_capped(images.drop_first(), links, cap)
    }
}

/// The embedded store: the three tables and the two id counters.
pub struct Database {
    pub images: Vec<ImageRow>,
    pub tags: Vec<TagRow>,
    pub image_tags: Vec<TagLink>,
    pub next_image_id: u64,
    pub next_tag_id: u64,
}

impl Database {
    /// Table invariant: ids and paths of images are unique and below the
    /// id counter; likewise ids and names of tags; every pairing
    /// references existing rows and no pairing is on record twice.
    pub open spec fn inv(self) -> bool {
        &&& forall|i: int, j: int|
            0 <= i < j < self.images@.len() ==> (#[trigger] self.images@[i]).id
                != (#[trigger] self.images@[j]).id
        &&& forall|i: int, j: int|
            0 <= i < j < self.images@.len() ==> (#[trigger] self.images@[i]).path@
                != (#[trigger] self.images@[j]).path@
        &&& forall|i: int|
            0 <= i < self.images@.len() ==> (#[trigger] self.images@[i]).id < self.next_image_id
        &&& forall|i: int, j: int|
            0 <= i < j < self.tags@.len() ==> (#[trigger] self.tags@[i]).id
                != (#[trigger] self.tags@[j]).id
        &&& forall|i: int, j: int|
            0 <= i < j < self.tags@.len() ==> (#[trigger] self.tags@[i]).name@
                != (#[trigger] self.tags@[j]).name@
        &&& forall|i: int|
            0 <= i < self.tags@.len() ==> (#[trigger] self.tags@[i]).id < self.next_tag_id
        &&& links_reference(self.image_tags@, self.images@, self.tags@)
        &&& links_unique(self.image_tags@)
    }

    /// A fresh store with empty tables, as created on first run.
    pub fn new() -> (db: Database)
        ensures
            db.inv(),
            db.images@.len() == 0,
            db.tags@.len() == 0,
            db.image_tags@.len() == 0,
            db.next_image_id == 0,
            db.next_tag_id == 0,
    {
        Database {
            images: Vec::new(),
            tags: Vec::new(),
            image_tags: Vec::new(),
            next_image_id: 0,
            next_tag_id: 0,
        }
    }

    /// Registers a path unless a row for it exists, and returns the id of
    /// its row either way.
    #[verifier::loop_isolation(false)]
    pub fn ensure_image(&mut self, path: &String) -> (id: u64)
        requires
            old(self).inv(),
            old(self).next_image_id < u64::MAX,
        ensures
            final(self).inv(),
            image_id_of(old(self).images@, path@) is Some ==> {
                &&& final(self).images@ == old(self).images@
                &&& final(self).next_image_id == old(self).next_image_id
                &&& Some(id) == image_id_of(old(self).images@, path@)
            },
            image_id_of(old(self).images@, path@) is None ==> {
                &&& final(self).images@ == old(self).images@.push(
                    (ImageRow { id: old(self).next_image_id, path: *path }),
                )
                &&& final(self).next_image_id == old(self).next_image_id + 1
                &&& id == old(self).next_image_id
            },
            final(self).tags@ == old(self).tags@,
            final(self).image_tags@ == old(self).image_tags@,
            final(self).next_tag_id == old(self).next_tag_id,
            image_id_of(final(self).images@, path@) == Some(id),
            has_image_id(final(self).images@, id),
    {
        let ghost rows = self.images@;
        let n = self.images.len();
        let mut i: usize = 0;
        proof {
            assert(rows.skip(0) =~= rows);
        }
        while i < n
            invariant
                i <= n,
                n == rows.len(),
                rows == self.images@,
                forall|j: int| 0 <= j < i ==> (#[trigger] rows[j]).path@ != path@,
                image_id_of(rows, path@) == image_id_of(rows.skip(i as int), path@),
            decreases n - i,
        {
            if self.images[i].path == *path {
                proof {
                    assert(rows.skip(i as int)[0] == rows[i as int]);
                    assert(image_id_of(rows, path@) == Some(rows[i as int].id));
                    assert(has_image_id(rows, rows[i as int].id)) by {
                        assert(rows[i as int].id == rows[i as int].id);
                    }
                }
                return self.images[i].id;
            }
            proof {
                assert(rows.skip(i as int).drop_first() =~= rows.skip(i as int + 1));
            }
            i = i + 1;
        }
        proof {
            assert(rows.skip(n as int) =~= Seq::<ImageRow>::empty());
            assert(image_id_of(rows, path@) is None);
        }
        let id = self.next_image_id;
        let row = ImageRow { id, path: path.clone() };
        self.images.push(row);
        self.next_image_id = self.next_image_id + 1;
        proof {
            let r = self.images@[rows.len() as int];
            assert(r.id == id && r.path@ == path@);
            lemma_image_id_of_push(rows, r, path@);
            assert(has_image_id(self.images@, id)) by {
                assert(self.images@[rows.len() as int].id == id);
            }
            assert forall|k: int|
                0 <= k < self.image_tags@.len() implies has_image_id(
                self.images@,
                (#[trigger] self.image_tags@[k]).image_id,
            ) && has_tag_id(self.tags@, self.image_tags@[k].tag_id) by {
                assert(has_image_id(rows, self.image_tags@[k].image_id));
                let w = choose|w: int|
                    0 <= w < rows.len() && rows[w].id == self.image_tags@[k].image_id;
                assert(self.images@[w].id == self.image_tags@[k].image_id);
            }
        }
        id
    }

    /// Registers a tag name unless a row for it exists, and returns the id
    /// of its row either way.
    #[verifier::loop_isolation(false)]
    pub fn ensure_tag(&mut self, name: &String) -> (id: u64)
        requires
            old(self).inv(),
            old(self).next_tag_id < u64::MAX,
        ensures
            final(self).inv(),
            tag_id_of(old(self).tags@, name@) is Some ==> {
                &&& final(self).tags@ == old(self).tags@
                &&& final(self).next_tag_id == old(self).next_tag_id
                &&& Some(id) == tag_id_of(old(self).tags@, name@)
            },
            tag_id_of(old(self).tags@, name@) is None ==> {
                &&& final(self).tags@ == old(self).tags@.push(
                    (TagRow { id: old(self).next_tag_id, name: *name }),
                )
                &&& final(self).next_tag_id == old(self).next_tag_id + 1
                &&& id == old(self).next_tag_id
            },
            final(self).images@ == old(self).images@,
            final(self).image_tags@ == old(self).image_tags@,
            final(self).next_image_id == old(self).next_image_id,
            tag_id_of(final(self).tags@, name@) == Some(id),
            has_tag_id(final(self).tags@, id),
    {
        let ghost rows = self.tags@;
        let n = self.tags.len();
        let mut i: usize = 0;
        proof {
            assert(rows.skip(0) =~= rows);
        }
        while i < n
            invariant
                i <= n,
                n == rows.len(),
                rows == self.tags@,
                forall|j: int| 0 <= j < i ==> (#[trigger] rows[j]).name@ != name@,
                tag_id_of(rows, name@) == tag_id_of(rows.skip(i as int), name@),
            decreases n - i,
        {
            if self.tags[i].name == *name {
                proof {
                    assert(rows.skip(i as int)[0] == rows[i as int]);
                    assert(tag_id_of(rows, name@) == Some(rows[i as int].id));
                    assert(has_tag_id(rows, rows[i as int].id)) by {
                        assert(rows[i as int].id == rows[i as int].id);
                    }
                }
                return self.tags[i].id;
            }
            proof {
                assert(rows.skip(i as int).drop_first() =~= rows.skip(i as int + 1));
            }
            i = i + 1;
        }
        proof {
            assert(rows.skip(n as int) =~= Seq::<TagRow>::empty());
            assert(tag_id_of(rows, name@) is None);
        }
        let id = self.next_tag_id;
        let row = TagRow { id, name: name.clone() };
        self.tags.push(row);
        self.next_tag_id = self.next_tag_id + 1;
        proof {
            let r = self.tags@[rows.len() as int];
            assert(r.id == id && r.name@ == name@);
            lemma_tag_id_of_push_new(rows, r, name@);
            assert(has_tag_id(self.tags@, id)) by {
                assert(self.tags@[rows.len() as int].id == id);
            }
            assert forall|k: int|
                0 <= k < self.image_tags@.len() implies has_image_id(
                self.images@,
                (#[trigger] self.image_tags@[k]).image_id,
            ) && has_tag_id(self.tags@, self.image_tags@[k].tag_id) by {
                assert(has_tag_id(rows, self.image_tags@[k].tag_id));
                let w = choose|w: int|
                    0 <= w < rows.len() && rows[w].id == self.image_tags@[k].tag_id;
                assert(self.tags@[w].id == self.image_tags@[k].tag_id);
            }
        }
        id
    }
}

impl Database {
    /// Applies a tag to an image: records the pairing unless it is already
    /// on record. No other pairing is touched.
    #[verifier::loop_isolation(false)]
    pub fn link_tag(&mut self, image_id: u64, tag_id: u64)
        requires
            old(self).inv(),
            has_image_id(old(self).images@, image_id),
            has_tag_id(old(self).tags@, tag_id),
        ensures
            final(self).inv(),
            has_link(old(self).image_tags@, image_id, tag_id) ==> final(self).image_tags@ == old(
                self,
            ).image_tags@,
            !has_link(old(self).image_tags@, image_id, tag_id) ==> final(self).image_tags@ == old(
                self,
            ).image_tags@.push((TagLink { image_id, tag_id })),
            has_link(final(self).image_tags@, image_id, tag_id),
            forall|i2: u64, t2: u64|
                !(i2 == image_id && t2 == tag_id) ==> (has_link(
                    final(self).image_tags@,
                    i2,
                    t2,
                ) <==> has_link(old(self).image_tags@, i2, t2)),
            final(self).images@ == old(self).images@,
            final(self).tags@ == old(self).tags@,
            final(self).next_image_id == old(self).next_image_id,
            final(self).next_tag_id == old(self).next_tag_id,
    {
        let ghost links = self.image_tags@;
        let n = self.image_tags.len();
        let mut i: usize = 0;
        while i < n
            invariant
                i <= n,
                forall|j: int|
                    0 <= j < i ==> !((#[trigger] links[j]).image_id == image_id && links[j].tag_id
                        == tag_id),
            decreases n - i,
        {
            if self.image_tags[i].image_id == image_id && self.image_tags[i].tag_id == tag_id {
                return ;
            }
            i = i + 1;
        }
        assert(!has_link(links, image_id, tag_id));
        self.image_tags.push(TagLink { image_id, tag_id });
        proof {
            assert(has_link(self.image_tags@, image_id, tag_id)) by {
                assert(self.image_tags@[links.len() as int].image_id == image_id);
            }
            assert forall|i2: u64, t2: u64| !(i2 == image_id && t2 == tag_id) implies (has_link(
                self.image_tags@,
                i2,
                t2,
            ) <==> has_link(links, i2, t2)) by {
                if has_link(self.image_tags@, i2, t2) {
                    let k = choose|k: int|
                        0 <= k < self.image_tags@.len() && self.image_tags@[k].image_id == i2
                            && self.image_tags@[k].tag_id == t2;
                    assert(k < links.len());
                    assert(links[k].image_id == i2 && links[k].tag_id == t2);
                }
                if has_link(links, i2, t2) {
                    let k = choose|k: int|
                        0 <= k < links.len() && links[k].image_id == i2 && links[k].tag_id == t2;
                    assert(self.image_tags@[k].image_id == i2 && self.image_tags@[k].tag_id == t2);
                }
            }
        }
    }

    /// Removes a tag from an image: deletes the pairing if it is on
    /// record. No other pairing is touched.
    #[verifier::loop_isolation(false)]
    pub fn unlink_tag(&mut self, image_id: u64, tag_id: u64)
        requires
            old(self).inv(),
        ensures
            final(self).inv(),
            final(self).image_tags@ == remove_link(old(self).image_tags@, image_id, tag_id),
            !has_link(final(self).image_tags@, image_id, tag_id),
            forall|i2: u64, t2: u64|
                !(i2 == image_id && t2 == tag_id) ==> (has_link(
                    final(self).image_tags@,
                    i2,
                    t2,
                ) <==> has_link(old(self).image_tags@, i2, t2)),
            final(self).images@ == old(self).images@,
            final(self).tags@ == old(self).tags@,
            final(self).next_image_id == old(self).next_image_id,
            final(self).next_tag_id == old(self).next_tag_id,
    {
        let ghost links = self.image_tags@;
        proof {
            lemma_remove_link_props(links, image_id, tag_id);
        }
        let n = self.image_tags.len();
        let mut i: usize = 0;
        while i < n
            invariant
                i <= n,
                n == links.len(),
                self.image_tags@ == links,
                self.images@ == old(self).images@,
                self.tags@ == old(self).tags@,
                self.next_image_id == old(self).next_image_id,
                self.next_tag_id == old(self).next_tag_id,
                forall|j: int|
                    0 <= j < i ==> !((#[trigger] links[j]).image_id == image_id && links[j].tag_id
                        == tag_id),
            decreases n - i,
        {
            if self.image_tags[i].image_id == image_id && self.image_tags[i].tag_id == tag_id {
                proof {
                    lemma_remove_link_at(links, image_id, tag_id, i as int);
                }
                self.image_tags.remove(i);
                proof {
                    assert(self.image_tags@ =~= links.remove(i as int));
                    assert(self.image_tags@ == remove_link(links, image_id, tag_id));
                    assert forall|k: int| 0 <= k < self.image_tags@.len() implies has_image_id(
                        self.images@,
                        (#[trigger] self.image_tags@[k]).image_id,
                    ) && has_tag_id(self.tags@, self.image_tags@[k].tag_id) by {
                        let lk = self.image_tags@[k];
                        assert(self.image_tags@.contains(lk)) by {
                            assert(self.image_tags@[k] == lk);
                        }
                        assert(links.contains(lk));
                        let j = choose|j: int| 0 <= j < links.len() && links[j] == lk;
                        assert(has_image_id(old(self).images@, links[j].image_id));
                    }
                }
                return ;
            }
            i = i + 1;
        }
        assert(!has_link(links, image_id, tag_id));
        proof {
            lemma_remove_link_absent(links, image_id, tag_id);
        }
    }

    /// Deletes an image: its row leaves the `images` table and every
    /// pairing that references it leaves the `image_tags` table; no other
    /// row and no tag is touched, and no tag-filtered query returns the
    /// deleted path any more. Deleting an unknown path changes nothing.
    #[verifier::loop_isolation(false)]
    #[verifier::rlimit(50)]
    pub fn delete_image(&mut self, path: &String)
        requires
            old(self).inv(),
        ensures
            final(self).inv(),
            final(self).images@ == remove_image_row(old(self).images@, path@),
            image_id_of(final(self).images@, path@) is None,
            forall|tid: u64|
                !(#[trigger] paths_with_tag(
                    final(self).images@,
                    final(self).image_tags@,
                    tid,
                )).contains(path@),
            forall|p2: Seq<char>|
                p2 != path@ ==> image_id_of(final(self).images@, p2) == image_id_of(
                    old(self).images@,
                    p2,
                ),
            forall|id: u64|
                image_id_of(old(self).images@, path@) == Some(id) ==> {
                    &&& final(self).image_tags@ == links_without_image(old(self).image_tags@, id)
                    &&& forall|t: u64| !has_link(final(self).image_tags@, id, t)
                    &&& forall|i2: u64, t2: u64|
                        i2 != id ==> (has_link(final(self).image_tags@, i2, t2) <==> has_link(
                            old(self).image_tags@,
                            i2,
                            t2,
                        ))
                },
            image_id_of(old(self).images@, path@) is None ==> final(self).image_tags@ == old(
                self,
            ).image_tags@,
            final(self).tags@ == old(self).tags@,
            final(self).next_image_id == old(self).next_image_id,
            final(self).next_tag_id == old(self).next_tag_id,
    {
        let ghost rows = self.images@;
        let ghost links = self.image_tags@;
        let found = find_image_index(&self.images, path);
        let i: usize = match found {
            None => {
                proof {
                    lemma_image_id_of_some_iff(rows, path@);
                    assert(image_id_of(rows, path@) is None);
                    lemma_remove_image_row_absent(rows, path@);
                    assert forall|tid: u64|
                        !(#[trigger] paths_with_tag(
                            self.images@,
                            self.image_tags@,
                            tid,
                        )).contains(path@) by {
                        lemma_absent_path_not_in_filter(self.images@, self.image_tags@, tid, path@);
                    }
                }
                return ;
            },
            Some(i) => i,
        };
        let id = self.images[i].id;
        proof {
            lemma_image_id_of_first(rows, path@, i as int);
            lemma_remove_image_row_at(rows, path@, i as int);
            lemma_remove_image_row_props(rows, path@);
            lemma_links_without_image_props(links, id);
            rows.remove_ensures(i as int);
        }
        self.images.remove(i);
        proof {
            assert(self.images@ =~= rows.remove(i as int));
        }
        let m = self.image_tags.len();
        let mut kept: Vec<TagLink> = Vec::new();
        let mut j: usize = 0;
        proof {
            assert(links.skip(0) =~= links);
            assert(kept@ + links_without_image(links.skip(0), id) =~= links_without_image(
                links,
                id,
            ));
        }
        while j < m
            invariant
                j <= m,
                m == links.len(),
                self.image_tags@ == links,
                self.images@ == rows.remove(i as int),
                self.tags@ == old(self).tags@,
                self.next_image_id == old(self).next_image_id,
                self.next_tag_id == old(self).next_tag_id,
                0 <= i < rows.len(),
                links_without_image(links, id) == kept@ + links_without_image(
                    links.skip(j as int),
                    id,
                ),
            decreases m - j,
        {
            let l = self.image_tags[j];
            proof {
                assert(links.skip(j as int)[0] == links[j as int]);
                assert(links.skip(j as int).drop_first() =~= links.skip(j as int + 1));
            }
            if l.image_id != id {
                kept.push(l);
                proof {
                    assert(links_without_image(links.skip(j as int), id) == seq![links[j as int]]
                        + links_without_image(links.skip(j as int + 1), id));
                    assert(links_without_image(links, id) =~= kept@ + links_without_image(
                        links.skip(j as int + 1),
                        id,
                    ));
                }
            } else {
                proof {
                    assert(links_without_image(links.skip(j as int), id) == links_without_image(
                        links.skip(j as int + 1),
                        id,
                    ));
                }
            }
            j = j + 1;
        }
        proof {
            assert(links.skip(m as int) =~= Seq::<TagLink>::empty());
            assert(kept@ =~= links_without_image(links, id));
        }
        self.image_tags = kept;
        proof {
            // the surviving pairings still reference existing rows
            assert forall|k: int| 0 <= k < self.image_tags@.len() implies has_image_id(
                self.images@,
                (#[trigger] self.image_tags@[k]).image_id,
            ) && has_tag_id(self.tags@, self.image_tags@[k].tag_id) by {
                let lk = self.image_tags@[k];
                assert(self.image_tags@.contains(lk)) by {
                    assert(self.image_tags@[k] == lk);
                }
                assert(links_without_image(links, id).contains(lk));
                assert(links.contains(lk) && lk.image_id != id);
                let w = choose|w: int| 0 <= w < links.len() && links[w] == lk;
                assert(has_image_id(rows, lk.image_id));
                let u = choose|u: int| 0 <= u < rows.len() && rows[u].id == lk.image_id;
                assert(u != i);
                if u < i {
                    assert(self.images@[u].id == lk.image_id);
                } else {
                    assert(self.images@[u - 1].id == lk.image_id);
                }
                assert(has_tag_id(old(self).tags@, lk.tag_id));
            }
            // the surviving image rows still have unique ids and paths,
            // all below the id counter
            assert forall|u: int, v: int|
                0 <= u < v < self.images@.len() implies (#[trigger] self.images@[u]).id
                != (#[trigger] self.images@[v]).id && self.images@[u].path@
                != self.images@[v].path@ by {
                let su: int = if u < i {
                    u
                } else {
                    u + 1
                };
                let sv: int = if v < i {
                    v
                } else {
                    v + 1
                };
                assert(self.images@[u] == rows[su]);
                assert(self.images@[v] == rows[sv]);
            }
            assert forall|u: int| 0 <= u < self.images@.len() implies (
            #[trigger] self.images@[u]).id < self.next_image_id by {
                let su: int = if u < i {
                    u
                } else {
                    u + 1
                };
                assert(self.images@[u] == rows[su]);
            }
            // the deleted path can no longer be selected by any tag
            assert forall|tid: u64|
                !(#[trigger] paths_with_tag(self.images@, self.image_tags@, tid)).contains(
                    path@,
                ) by {
                lemma_absent_path_not_in_filter(self.images@, self.image_tags@, tid, path@);
            }
        }
    }
}

impl Database {
    /// Looks up the id of the image row with the given path.
    pub fn image_id(&self, path: &String) -> (r: Option<u64>)
        ensures
            r == image_id_of(self.images@, path@),
    {
        let found = find_image_index(&self.images, path);
        match found {
            None => {
                proof {
                    lemma_image_id_of_some_iff(self.images@, path@);
                }
                None
            },
            Some(i) => {
                proof {
                    lemma_image_id_of_first(self.images@, path@, i as int);
                }
                Some(self.images[i].id)
            },
        }
    }

    /// Looks up the id of the tag row with the given name.
    pub fn tag_id(&self, name: &String) -> (r: Option<u64>)
        ensures
            r == tag_id_of(self.tags@, name@),
    {
        let found = find_tag_index(&self.tags, name);
        match found {
            None => {
                proof {
                    lemma_tag_id_of_none(self.tags@, name@);
                }
                None
            },
            Some(i) => {
                proof {
                    lemma_tag_id_of_first(self.tags@, name@, i as int);
                }
                Some(self.tags[i].id)
            },
        }
    }

    /// The tag names applied to the image with the given path, sorted; an
    /// unknown path has none.
    #[verifier::loop_isolation(false)]
    pub fn tags_of_image(&self, path: &String) -> (r: Vec<String>)
        requires
            self.inv(),
        ensures
            strictly_sorted(r.deep_view()),
            (match image_id_of(self.images@, path@) {
                Some(id) => forall|n: Seq<char>|
                    #[trigger] r.deep_view().contains(n) <==> image_has_tag_name(
                        self.tags@,
                        self.image_tags@,
                        id,
                        n,
                    ),
                None => r@.len() == 0,
            }),
    {
        let found = find_image_index(&self.images, path);
        let i: usize = match found {
            None => {
                proof {
                    lemma_image_id_of_some_iff(self.images@, path@);
                }
                return Vec::new();
            },
            Some(i) => i,
        };
        let id = self.images[i].id;
        proof {
            lemma_image_id_of_first(self.images@, path@, i as int);
        }
        let mut result: Vec<String> = Vec::new();
        let m = self.tags.len();
        let mut k: usize = 0;
        proof {
            assert(result.deep_view() =~= Seq::<Seq<char>>::empty());
        }
        while k < m
            invariant
                k <= m,
                m == self.tags@.len(),
                strictly_sorted(result.deep_view()),
                forall|n: Seq<char>|
                    #[trigger] result.deep_view().contains(n) <==> exists|j: int|
                        0 <= j < k && (#[trigger] self.tags@[j]).name@ == n && has_link(
                            self.image_tags@,
                            id,
                            self.tags@[j].id,
                        ),
            decreases m - k,
        {
            let ghost before = result.deep_view();
            if link_exists(&self.image_tags, id, self.tags[k].id) {
                proof {
                    lemma_insert_if_absent_contains(before, self.tags@[k as int].name@);
                }
                insert_tag_if_absent(&mut result, &self.tags[k].name);
            }
            proof {
                assert forall|n: Seq<char>| #[trigger] result.deep_view().contains(n) implies
                    exists|j: int|
                        0 <= j < k + 1 && (#[trigger] self.tags@[j]).name@ == n && has_link(
                            self.image_tags@,
                            id,
                            self.tags@[j].id,
                        ) by {
                    if before.contains(n) {
                        let j = choose|j: int|
                            0 <= j < k && (#[trigger] self.tags@[j]).name@ == n && has_link(
                                self.image_tags@,
                                id,
                                self.tags@[j].id,
                            );
                        assert(0 <= j < k + 1 && self.tags@[j].name@ == n && has_link(
                            self.image_tags@,
                            id,
                            self.tags@[j].id,
                        ));
                    } else {
                        assert(n == self.tags@[k as int].name@);
                        assert(0 <= k < k + 1 && self.tags@[k as int].name@ == n && has_link(
                            self.image_tags@,
                            id,
                            self.tags@[k as int].id,
                        ));
                    }
                }
                assert forall|n: Seq<char>|
                    (exists|j: int|
                        0 <= j < k + 1 && (#[trigger] self.tags@[j]).name@ == n && has_link(
                            self.image_tags@,
                            id,
                            self.tags@[j].id,
                        )) implies #[trigger] result.deep_view().contains(n) by {
                    let j = choose|j: int|
                        0 <= j < k + 1 && (#[trigger] self.tags@[j]).name@ == n && has_link(
                            self.image_tags@,
                            id,
                            self.tags@[j].id,
                        );
                    if j < k {
                        assert(before.contains(n));
                    }
                }
            }
            k = k + 1;
        }
        result
    }

    /// The paths of the images that carry the named tag, in table order; an
    /// unknown tag name selects nothing.
    #[verifier::loop_isolation(false)]
    pub fn images_with_tag(&self, name: &String) -> (r: Vec<String>)
        requires
            self.inv(),
        ensures
            (match tag_id_of(self.tags@, name@) {
                Some(tid) => r.deep_view() == paths_with_tag(self.images@, self.image_tags@, tid),
                None => r@.len() == 0,
            }),
    {
        let found = find_tag_index(&self.tags, name);
        let t: usize = match found {
            None => {
                proof {
                    lemma_tag_id_of_none(self.tags@, name@);
                }
                return Vec::new();
            },
            Some(t) => t,
        };
        let tid = self.tags[t].id;
        proof {
            lemma_tag_id_of_first(self.tags@, name@, t as int);
        }
        let images = &self.images;
        let n = images.len();
        let mut r: Vec<String> = Vec::new();
        let mut j: usize = 0;
        proof {
            assert(images@.skip(0) =~= images@);
            assert(r.deep_view() + paths_with_tag(images@.skip(0), self.image_tags@, tid)
                =~= paths_with_tag(images@, self.image_tags@, tid));
        }
        while j < n
            invariant
                j <= n,
                n == images@.len(),
                paths_with_tag(images@, self.image_tags@, tid) == r.deep_view() + paths_with_tag(
                    images@.skip(j as int),
                    self.image_tags@,
                    tid,
                ),
            decreases n - j,
        {
            proof {
                assert(images@.skip(j as int)[0] == images@[j as int]);
                assert(images@.skip(j as int).drop_first() =~= images@.skip(j as int + 1));
            }
            let ghost before = r.deep_view();
            if link_exists(&self.image_tags, images[j].id, tid) {
                r.push(images[j].path.clone());
                proof {
                    assert(r.deep_view() =~= before.push(images@[j as int].path@));
                    assert(r.deep_view() + paths_with_tag(
                        images@.skip(j as int + 1),
                        self.image_tags@,
                        tid,
                    ) =~= before + paths_with_tag(images@.skip(j as int), self.image_tags@, tid));
                }
            }
            j = j + 1;
        }
        proof {
            assert(images@.skip(n as int) =~= Seq::<ImageRow>::empty());
            assert(r.deep_view() =~= paths_with_tag(images@, self.image_tags@, tid));
        }
        r
    }

    /// The paths of at most `limit` images that carry no tag yet, in table
    /// order.
    #[verifier::loop_isolation(false)]
    pub fn untagged_image_paths(&self, limit: usize) -> (r: Vec<String>)
        requires
            self.inv(),
        ensures
            r.deep_view() == untagged_paths_capped(
                self.images@,
                self.image_tags@,
                limit as nat,
            ),
    {
        let images = &self.images;
        let n = images.len();
        let mut r: Vec<String> = Vec::new();
        let mut j: usize = 0;
        proof {
            assert(images@.skip(0) =~= images@);
            assert(r.deep_view() + untagged_paths_capped(
                images@.skip(0),
                self.image_tags@,
                limit as nat,
            ) =~= untagged_paths_capped(images@, self.image_tags@, limit as nat));
        }
        while j < n
            invariant
                j <= n,
                n == images@.len(),
                r@.len() <= limit,
                untagged_paths_capped(images@, self.image_tags@, limit as nat) == r.deep_view()
                    + untagged_paths_capped(
                    images@.skip(j as int),
                    self.image_tags@,
                    (limit - r@.len()) as nat,
                ),
            decreases n - j,
        {
            if r.len() >= limit {
                proof {
                    assert(untagged_paths_capped(
                        images@.skip(j as int),
                        self.image_tags@,
                        (limit - r@.len()) as nat,
                    ) =~= Seq::<Seq<char>>::empty());
                    assert(r.deep_view() =~= untagged_paths_capped(
                        images@,
                        self.image_tags@,
                        limit as nat,
                    ));
                }
                return r;
            }
            proof {
                assert(images@.skip(j as int)[0] == images@[j as int]);
                assert(images@.skip(j as int).drop_first() =~= images@.skip(j as int + 1));
            }
            let ghost before = r.deep_view();
            if !image_tagged(&self.image_tags, images[j].id) {
                r.push(images[j].path.clone());
                proof {
                    assert(r.deep_view() =~= before.push(images@[j as int].path@));
                    assert(r.deep_view() + untagged_paths_capped(
                        images@.skip(j as int + 1),
                        self.image_tags@,
                        (limit - r@.len()) as nat,
                    ) =~= before + untagged_paths_capped(
                        images@.skip(j as int),
                        self.image_tags@,
                        (limit - before.len()) as nat,
                    ));
                }
            }
            j = j + 1;
        }
        proof {
            assert(images@.skip(n as int) =~= Seq::<ImageRow>::empty());
            assert(r.deep_view() =~= untagged_paths_capped(
                images@,
                self.image_tags@,
                limit as nat,
            ));
        }
        r
    }
}

/// Decides whether a pairing is on record.
fn link_exists(links: &Vec<TagLink>, image_id: u64, tag_id: u64) -> (r: bool)
    ensures
        r == has_link(links@, image_id, tag_id),
{
    let n = links.len();
    let mut i: usize = 0;
    while i < n
        invariant
            i <= n,
            n == links@.len(),
            forall|j: int|
                0 <= j < i ==> !((#[trigger] links@[j]).image_id == image_id && links@[j].tag_id
                    == tag_id),
        decreases n - i,
    {
        if links[i].image_id == image_id && links[i].tag_id == tag_id {
            return true;
        }
        i = i + 1;
    }
    false
}

/// Decides whether any tag at all is applied to an image.
fn image_tagged(links: &Vec<TagLink>, image_id: u64) -> (r: bool)
    ensures
        r == image_is_tagged(links@, image_id),
{
    let n = links.len();
    let mut i: usize = 0;
    while i < n
        invariant
            i <= n,
            n == links@.len(),
            forall|j: int| 0 <= j < i ==> (#[trigger] links@[j]).image_id != image_id,
        decreases n - i,
    {
        if links[i].image_id == image_id {
            return true;
        }
        i = i + 1;
    }
    false
}

/// Finds the position of the first tag row with the given name.
#[verifier::loop_isolation(false)]
fn find_tag_index(rows: &Vec<TagRow>, name: &String) -> (r: Option<usize>)
    ensures
        (match r {
            None => forall|j: int| 0 <= j < rows@.len() ==> (#[trigger] rows@[j]).name@ != name@,
            Some(i) => i < rows@.len() && rows@[i as int].name@ == name@ && (forall|j: int|
                0 <= j < i ==> (#[trigger] rows@[j]).name@ != name@),
        }),
{
    let n = rows.len();
    let mut i: usize = 0;
    while i < n
        invariant
            i <= n,
            forall|j: int| 0 <= j < i ==> (#[trigger] rows@[j]).name@ != name@,
        decreases n - i,
    {
        if rows[i].name == *name {
            return Some(i);
        }
        i = i + 1;
    }
    None
}

/// When no row carries the name, the lookup finds nothing.
proof fn lemma_tag_id_of_none(rows: Seq<TagRow>, name: Seq<char>)
    requires
        forall|j: int| 0 <= j < rows.len() ==> (#[trigger] rows[j]).name@ != name,
    ensures
        tag_id_of(rows, name) is None,
    decreases rows.len(),
{
    if rows.len() > 0 {
        let tail = rows.drop_first();
        assert(forall|j: int| 0 <= j < tail.len() ==> #[trigger] tail[j] == rows[j + 1]);
        lemma_tag_id_of_none(tail, name);
    }
}

/// When the first row with the given name stands at position `i`, the
/// lookup returns that row's id.
proof fn lemma_tag_id_of_first(rows: Seq<TagRow>, name: Seq<char>, i: int)
    requires
        0 <= i < rows.len(),
        rows[i].name@ == name,
        forall|j: int| 0 <= j < i ==> (#[trigger] rows[j]).name@ != name,
    ensures
        tag_id_of(rows, name) == Some(rows[i].id),
    decreases rows.len(),
{
    if i > 0 {
        let tail = rows.drop_first();
        assert(tail[i - 1] == rows[i]);
        assert(forall|j: int| 0 <= j < i - 1 ==> #[trigger] tail[j] == rows[j + 1]);
        lemma_tag_id_of_first(tail, name, i - 1);
    }
}

/// A name lookup in the tag table succeeds exactly when a row carries the
/// name.
pub proof fn lemma_tag_id_of_some_iff(rows: Seq<TagRow>, name: Seq<char>)
    ensures
        (tag_id_of(rows, name) is Some) <==> has_tag_name(rows, name),
        forall|v: u64|
            tag_id_of(rows, name) == Some(v) ==> exists|i: int|
                0 <= i < rows.len() && (#[trigger] rows[i]).name@ == name && rows[i].id == v,
    decreases rows.len(),
{
    if rows.len() > 0 {
        lemma_tag_id_of_some_iff(rows.drop_first(), name);
        if rows[0].name@ == name {
        } else {
            assert forall|v: u64| tag_id_of(rows, name) == Some(v) implies exists|i: int|
                0 <= i < rows.len() && (#[trigger] rows[i]).name@ == name && rows[i].id == v by {
                let k = choose|k: int|
                    0 <= k < rows.drop_first().len() && (#[trigger] rows.drop_first()[k]).name@
                        == name && rows.drop_first()[k].id == v;
                assert(rows[k + 1].name@ == name && rows[k + 1].id == v);
            }
            if has_tag_name(rows, name) {
                let k = choose|k: int| 0 <= k < rows.len() && (#[trigger] rows[k]).name@ == name;
                assert(rows.drop_first()[k - 1].name@ == name);
                assert(has_tag_name(rows.drop_first(), name));
            }
            if has_tag_name(rows.drop_first(), name) {
                let k = choose|k: int|
                    0 <= k < rows.drop_first().len() && (#[trigger] rows.drop_first()[k]).name@
                        == name;
                assert(rows[k + 1].name@ == name);
            }
        }
    }
}

/// A path that does not resolve resolves after an append exactly when the
/// appended row carries it.
pub proof fn lemma_image_id_of_push(rows: Seq<ImageRow>, row: ImageRow, p: Seq<char>)
    requires
        image_id_of(rows, p) is None,
    ensures
        image_id_of(rows.push(row), p) == if row.path@ == p {
            Some(row.id)
        } else {
            None::<u64>
        },
    decreases rows.len(),
{
    if rows.len() == 0 {
        assert(rows.push(row)[0] == row);
        if row.path@ == p {
            assert(image_id_of(rows.push(row), p) == Some(row.id));
        } else {
            assert(rows.push(row).drop_first() =~= Seq::<ImageRow>::empty());
            assert(image_id_of(rows.push(row), p) == image_id_of(
                rows.push(row).drop_first(),
                p,
            ));
            assert(image_id_of(rows.push(row), p) is None);
        }
    } else {
        assert(rows.push(row)[0] == rows[0]);
        assert(rows[0].path@ != p);
        assert(rows.push(row).drop_first() =~= rows.drop_first().push(row));
        lemma_image_id_of_push(rows.drop_first(), row, p);
        assert(image_id_of(rows.push(row), p) == image_id_of(rows.drop_first().push(row), p));
    }
}

/// A path that resolves keeps resolving to the same row when a new row is
/// appended.
pub proof fn lemma_image_id_of_push_preserves(rows: Seq<ImageRow>, row: ImageRow, p: Seq<char>)
    requires
        image_id_of(rows, p) is Some,
    ensures
        image_id_of(rows.push(row), p) == image_id_of(rows, p),
    decreases rows.len(),
{
    assert(rows.push(row)[0] == rows[0]);
    if rows[0].path@ == p {
    } else {
        assert(rows.push(row).drop_first() =~= rows.drop_first().push(row));
        lemma_image_id_of_push_preserves(rows.drop_first(), row, p);
    }
}

/// Appending a tag row adds exactly its name to the names on record.
pub proof fn lemma_has_tag_name_push(tags: Seq<TagRow>, row: TagRow)
    ensures
        forall|n: Seq<char>|
            has_tag_name(tags.push(row), n) <==> (has_tag_name(tags, n) || n == row.name@),
{
    assert forall|n: Seq<char>|
        has_tag_name(tags.push(row), n) <==> (has_tag_name(tags, n) || n == row.name@) by {
        if has_tag_name(tags.push(row), n) {
            let k = choose|k: int|
                0 <= k < tags.push(row).len() && (#[trigger] tags.push(row)[k]).name@ == n;
            if k < tags.len() {
                assert(tags[k].name@ == n);
                assert(has_tag_name(tags, n));
            } else {
                assert(tags.push(row)[k] == row);
            }
        }
        if has_tag_name(tags, n) {
            let k = choose|k: int| 0 <= k < tags.len() && (#[trigger] tags[k]).name@ == n;
            assert(tags.push(row)[k].name@ == n);
            assert(has_tag_name(tags.push(row), n));
        }
        if n == row.name@ {
            assert(tags.push(row)[tags.len() as int] == row);
            assert(has_tag_name(tags.push(row), n));
        }
    }
}

/// A tag row that no pairing references changes no image's tag names when
/// it is appended.
pub proof fn lemma_image_tag_name_push_row(
    tags: Seq<TagRow>,
    row: TagRow,
    links: Seq<TagLink>,
    image_id: u64,
)
    requires
        forall|k: int| 0 <= k < links.len() ==> (#[trigger] links[k]).tag_id != row.id,
    ensures
        forall|n: Seq<char>|
            image_has_tag_name(tags.push(row), links, image_id, n) <==> image_has_tag_name(
                tags,
                links,
                image_id,
                n,
            ),
{
    assert forall|n: Seq<char>|
        image_has_tag_name(tags.push(row), links, image_id, n) <==> image_has_tag_name(
            tags,
            links,
            image_id,
            n,
        ) by {
        if image_has_tag_name(tags.push(row), links, image_id, n) {
            let k = choose|k: int|
                0 <= k < tags.push(row).len() && (#[trigger] tags.push(row)[k]).name@ == n
                    && has_link(links, image_id, tags.push(row)[k].id);
            if k < tags.len() {
                assert(tags[k].name@ == n && has_link(links, image_id, tags[k].id));
            } else {
                assert(tags.push(row)[k] == row);
                let l = choose|l: int|
                    0 <= l < links.len() && links[l].image_id == image_id && links[l].tag_id
                        == row.id;
            }
        }
        if image_has_tag_name(tags, links, image_id, n) {
            let k = choose|k: int|
                0 <= k < tags.len() && (#[trigger] tags[k]).name@ == n && has_link(
                    links,
                    image_id,
                    tags[k].id,
                );
            assert(tags.push(row)[k].name@ == n);
            assert(image_has_tag_name(tags.push(row), links, image_id, n));
        }
    }
}

/// An image that no pairing references carries no tag name at all.
pub proof fn lemma_unreferenced_image_no_tags(
    tags: Seq<TagRow>,
    links: Seq<TagLink>,
    image_id: u64,
)
    requires
        forall|k: int| 0 <= k < links.len() ==> (#[trigger] links[k]).image_id != image_id,
    ensures
        forall|n: Seq<char>| !image_has_tag_name(tags, links, image_id, n),
{
    assert forall|n: Seq<char>| !image_has_tag_name(tags, links, image_id, n) by {
        if image_has_tag_name(tags, links, image_id, n) {
            let k = choose|k: int|
                0 <= k < tags.len() && (#[trigger] tags[k]).name@ == n && has_link(
                    links,
                    image_id,
                    tags[k].id,
                );
            let l = choose|l: int|
                0 <= l < links.len() && links[l].image_id == image_id && links[l].tag_id
                    == tags[k].id;
        }
    }
}

/// After the pairing of an image with the tag named `name` is recorded,
/// the image carries exactly its old names and that one.
pub proof fn lemma_image_tags_after_link(
    tags: Seq<TagRow>,
    links_before: Seq<TagLink>,
    links_after: Seq<TagLink>,
    image_id: u64,
    tid: u64,
    name: Seq<char>,
)
    requires
        forall|i: int, j: int|
            0 <= i < j < tags.len() ==> (#[trigger] tags[i]).id != (#[trigger] tags[j]).id,
        forall|i: int, j: int|
            0 <= i < j < tags.len() ==> (#[trigger] tags[i]).name@ != (#[trigger] tags[j]).name@,
        tag_id_of(tags, name) == Some(tid),
        has_link(links_after, image_id, tid),
        forall|i2: u64, t2: u64|
            !(i2 == image_id && t2 == tid) ==> (has_link(links_after, i2, t2) <==> has_link(
                links_before,
                i2,
                t2,
            )),
    ensures
        forall|n: Seq<char>|
            image_has_tag_name(tags, links_after, image_id, n) <==> (image_has_tag_name(
                tags,
                links_before,
                image_id,
                n,
            ) || n == name),
{
    lemma_tag_id_of_some_iff(tags, name);
    let w = choose|w: int| 0 <= w < tags.len() && (#[trigger] tags[w]).name@ == name && tags[w].id
        == tid;
    assert forall|n: Seq<char>|
        image_has_tag_name(tags, links_after, image_id, n) <==> (image_has_tag_name(
            tags,
            links_before,
            image_id,
            n,
        ) || n == name) by {
        if image_has_tag_name(tags, links_after, image_id, n) {
            let k = choose|k: int|
                0 <= k < tags.len() && (#[trigger] tags[k]).name@ == n && has_link(
                    links_after,
                    image_id,
                    tags[k].id,
                );
            if tags[k].id == tid {
                assert(k == w);
            } else {
                assert(has_link(links_before, image_id, tags[k].id));
                assert(image_has_tag_name(tags, links_before, image_id, n));
            }
        }
        if image_has_tag_name(tags, links_before, image_id, n) {
            let k = choose|k: int|
                0 <= k < tags.len() && (#[trigger] tags[k]).name@ == n && has_link(
                    links_before,
                    image_id,
                    tags[k].id,
                );
            if tags[k].id == tid {
                assert(k == w);
                assert(has_link(links_after, image_id, tags[k].id));
            } else {
                assert(has_link(links_after, image_id, tags[k].id));
            }
            assert(image_has_tag_name(tags, links_after, image_id, n));
        }
        if n == name {
            assert(tags[w].name@ == n && has_link(links_after, image_id, tags[w].id));
            assert(image_has_tag_name(tags, links_after, image_id, n));
        }
    }
}

/// After the pairing of an image with the tag named `name` is deleted, the
/// image carries exactly its old names except that one.
pub proof fn lemma_image_tags_after_unlink(
    tags: Seq<TagRow>,
    links_before: Seq<TagLink>,
    links_after: Seq<TagLink>,
    image_id: u64,
    tid: u64,
    name: Seq<char>,
)
    requires
        forall|i: int, j: int|
            0 <= i < j < tags.len() ==> (#[trigger] tags[i]).id != (#[trigger] tags[j]).id,
        forall|i: int, j: int|
            0 <= i < j < tags.len() ==> (#[trigger] tags[i]).name@ != (#[trigger] tags[j]).name@,
        tag_id_of(tags, name) == Some(tid),
        !has_link(links_after, image_id, tid),
        forall|i2: u64, t2: u64|
            !(i2 == image_id && t2 == tid) ==> (has_link(links_after, i2, t2) <==> has_link(
                links_before,
                i2,
                t2,
            )),
    ensures
        forall|n: Seq<char>|
            image_has_tag_name(tags, links_after, image_id, n) <==> (image_has_tag_name(
                tags,
                links_before,
                image_id,
                n,
            ) && n != name),
{
    lemma_tag_id_of_some_iff(tags, name);
    let w = choose|w: int| 0 <= w < tags.len() && (#[trigger] tags[w]).name@ == name && tags[w].id
        == tid;
    assert forall|n: Seq<char>|
        image_has_tag_name(tags, links_after, image_id, n) <==> (image_has_tag_name(
            tags,
            links_before,
            image_id,
            n,
        ) && n != name) by {
        if image_has_tag_name(tags, links_after, image_id, n) {
            let k = choose|k: int|
                0 <= k < tags.len() && (#[trigger] tags[k]).name@ == n && has_link(
                    links_after,
                    image_id,
                    tags[k].id,
                );
            assert(tags[k].id != tid);
            assert(has_link(links_before, image_id, tags[k].id));
            assert(image_has_tag_name(tags, links_before, image_id, n));
            if n == name {
                assert(k == w);
            }
        }
        if image_has_tag_name(tags, links_before, image_id, n) && n != name {
            let k = choose|k: int|
                0 <= k < tags.len() && (#[trigger] tags[k]).name@ == n && has_link(
                    links_before,
                    image_id,
                    tags[k].id,
                );
            assert(tags[k].id != tid) by {
                if tags[k].id == tid {
                    assert(k == w);
                }
            }
            assert(has_link(links_after, image_id, tags[k].id));
            assert(image_has_tag_name(tags, links_after, image_id, n));
        }
    }
}

/// A capped query returns no more paths than its cap.
pub proof fn lemma_untagged_capped_len(images: Seq<ImageRow>, links: Seq<TagLink>, cap: nat)
    ensures
        untagged_paths_capped(images, links, cap).len() <= cap,
    decreases images.len(),
{
    if images.len() > 0 && cap > 0 {
        if !image_is_tagged(links, images[0].id) {
            lemma_untagged_capped_len(images.drop_first(), links, (cap - 1) as nat);
        } else {
            lemma_untagged_capped_len(images.drop_first(), links, cap);
        }
    }
}

/// A deleted image is returned by no tag-filtered query: a path with no
/// image row appears in no query result.
pub proof fn lemma_absent_path_not_in_filter(
    images: Seq<ImageRow>,
    links: Seq<TagLink>,
    tag_id: u64,
    path: Seq<char>,
)
    requires
        image_id_of(images, path) is None,
    ensures
        !paths_with_tag(images, links, tag_id).contains(path),
    decreases images.len(),
{
    if images.len() > 0 {
        let res = paths_with_tag(images, links, tag_id);
        assert(images[0].path@ != path);
        lemma_absent_path_not_in_filter(images.drop_first(), links, tag_id, path);
        let rest = paths_with_tag(images.drop_first(), links, tag_id);
        if res.contains(path) {
            let k = choose|k: int| 0 <= k < res.len() && res[k] == path;
            if has_link(links, images[0].id, tag_id) {
                assert(k > 0);
                assert(rest[k - 1] == path);
                assert(rest.contains(path)) by {
                    assert(rest[k - 1] == path);
                }
            } else {
                assert(rest.contains(path)) by {
                    assert(rest[k] == path);
                }
            }
        }
    }
}

/// Finds the position of the first image row with the given path.
#[verifier::loop_isolation(false)]
fn find_image_index(rows: &Vec<ImageRow>, path: &String) -> (r: Option<usize>)
    ensures
        (match r {
            None => forall|j: int| 0 <= j < rows@.len() ==> (#[trigger] rows@[j]).path@ != path@,
            Some(i) => i < rows@.len() && rows@[i as int].path@ == path@ && (forall|j: int|
                0 <= j < i ==> (#[trigger] rows@[j]).path@ != path@),
        }),
{
    let n = rows.len();
    let mut i: usize = 0;
    while i < n
        invariant
            i <= n,
            forall|j: int| 0 <= j < i ==> (#[trigger] rows@[j]).path@ != path@,
        decreases n - i,
    {
        if rows[i].path == *path {
            return Some(i);
        }
        i = i + 1;
    }
    None
}

/// A successful path lookup names the id of a row with that path.
proof fn lemma_image_id_of_some_iff(rows: Seq<ImageRow>, path: Seq<char>)
    ensures
        (image_id_of(rows, path) is Some) <==> (exists|i: int|
            0 <= i < rows.len() && (#[trigger] rows[i]).path@ == path),
        forall|v: u64|
            image_id_of(rows, path) == Some(v) ==> exists|i: int|
                0 <= i < rows.len() && (#[trigger] rows[i]).path@ == path && rows[i].id == v,
    decreases rows.len(),
{
    if rows.len() > 0 {
        lemma_image_id_of_some_iff(rows.drop_first(), path);
        if rows[0].path@ == path {
        } else {
            assert forall|v: u64| image_id_of(rows, path) == Some(v) implies exists|i: int|
                0 <= i < rows.len() && (#[trigger] rows[i]).path@ == path && rows[i].id == v by {
                let k = choose|k: int|
                    0 <= k < rows.drop_first().len() && (#[trigger] rows.drop_first()[k]).path@
                        == path && rows.drop_first()[k].id == v;
                assert(rows[k + 1].path@ == path && rows[k + 1].id == v);
            }
            if exists|i: int| 0 <= i < rows.len() && (#[trigger] rows[i]).path@ == path {
                let k = choose|k: int| 0 <= k < rows.len() && (#[trigger] rows[k]).path@ == path;
                assert(rows.drop_first()[k - 1].path@ == path);
            }
        }
    }
}

/// When the first row with the given path stands at position `i`, the
/// lookup returns that row's id.
proof fn lemma_image_id_of_first(rows: Seq<ImageRow>, path: Seq<char>, i: int)
    requires
        0 <= i < rows.len(),
        rows[i].path@ == path,
        forall|j: int| 0 <= j < i ==> (#[trigger] rows[j]).path@ != path,
    ensures
        image_id_of(rows, path) == Some(rows[i].id),
    decreases rows.len(),
{
    if i > 0 {
        let tail = rows.drop_first();
        assert(tail[i - 1] == rows[i]);
        assert(forall|j: int| 0 <= j < i - 1 ==> #[trigger] tail[j] == rows[j + 1]);
        lemma_image_id_of_first(tail, path, i - 1);
    }
}

/// Deleting an absent path changes nothing.
proof fn lemma_remove_image_row_absent(rows: Seq<ImageRow>, path: Seq<char>)
    requires
        forall|i: int| 0 <= i < rows.len() ==> (#[trigger] rows[i]).path@ != path,
    ensures
        remove_image_row(rows, path) == rows,
    decreases rows.len(),
{
    if rows.len() > 0 {
        let tail = rows.drop_first();
        assert(forall|j: int| 0 <= j < tail.len() ==> #[trigger] tail[j] == rows[j + 1]);
        lemma_remove_image_row_absent(tail, path);
        assert(remove_image_row(rows, path) =~= rows);
    }
}

/// When the first row with the given path stands at position `i`, deleting
/// the path removes exactly that row.
proof fn lemma_remove_image_row_at(rows: Seq<ImageRow>, path: Seq<char>, i: int)
    requires
        0 <= i < rows.len(),
        rows[i].path@ == path,
        forall|j: int| 0 <= j < i ==> (#[trigger] rows[j]).path@ != path,
    ensures
        remove_image_row(rows, path) == rows.remove(i),
    decreases rows.len(),
{
    if i == 0 {
        assert(remove_image_row(rows, path) =~= rows.remove(0));
    } else {
        let tail = rows.drop_first();
        assert(tail[i - 1] == rows[i]);
        assert(forall|j: int| 0 <= j < i - 1 ==> #[trigger] tail[j] == rows[j + 1]);
        lemma_remove_image_row_at(tail, path, i - 1);
        assert(remove_image_row(rows, path) =~= rows.remove(i));
    }
}

/// Deleting a path from rows with unique paths leaves no row with that
/// path and resolves every other path as before.
proof fn lemma_remove_image_row_props(rows: Seq<ImageRow>, path: Seq<char>)
    requires
        forall|i: int, j: int|
            0 <= i < j < rows.len() ==> (#[trigger] rows[i]).path@ != (#[trigger] rows[j]).path@,
    ensures
        image_id_of(remove_image_row(rows, path), path) is None,
        forall|p2: Seq<char>|
            p2 != path ==> image_id_of(remove_image_row(rows, path), p2) == image_id_of(rows, p2),
        forall|r: ImageRow| remove_image_row(rows, path).contains(r) ==> rows.contains(r),
    decreases rows.len(),
{
    let res = remove_image_row(rows, path);
    if rows.len() == 0 {
    } else {
        let tail = rows.drop_first();
        assert(forall|j: int| 0 <= j < tail.len() ==> #[trigger] tail[j] == rows[j + 1]);
        assert(forall|i: int, j: int|
            0 <= i < j < tail.len() ==> (#[trigger] tail[i]).path@ != (#[trigger] tail[j]).path@);
        if rows[0].path@ == path {
            assert(res == tail);
            assert(image_id_of(tail, path) is None) by {
                lemma_image_id_of_some_iff(tail, path);
                if exists|k: int| 0 <= k < tail.len() && (#[trigger] tail[k]).path@ == path {
                    let k = choose|k: int|
                        0 <= k < tail.len() && (#[trigger] tail[k]).path@ == path;
                    assert(rows[k + 1].path@ == rows[0].path@);
                }
            }
            assert forall|r: ImageRow| res.contains(r) implies rows.contains(r) by {
                if res.contains(r) {
                    let k = choose|k: int| 0 <= k < res.len() && res[k] == r;
                    assert(rows[k + 1] == r);
                }
            }
        } else {
            lemma_remove_image_row_props(tail, path);
            assert(res == seq![rows[0]] + remove_image_row(tail, path));
            assert(res[0] == rows[0]);
            assert(res.drop_first() =~= remove_image_row(tail, path));
            assert(image_id_of(res, path) is None);
            assert forall|p2: Seq<char>| p2 != path implies image_id_of(res, p2) == image_id_of(
                rows,
                p2,
            ) by {
                if rows[0].path@ == p2 {
                    assert(image_id_of(res, p2) == Some(res[0].id));
                } else {
                    assert(image_id_of(res, p2) == image_id_of(remove_image_row(tail, path), p2));
                    assert(image_id_of(rows, p2) == image_id_of(tail, p2));
                }
            }
            assert forall|r: ImageRow| res.contains(r) implies rows.contains(r) by {
                if res.contains(r) {
                    let k = choose|k: int| 0 <= k < res.len() && res[k] == r;
                    if k == 0 {
                        assert(rows[0] == r);
                    } else {
                        assert(remove_image_row(tail, path)[k - 1] == r);
                        assert(remove_image_row(tail, path).contains(r)) by {
                            assert(remove_image_row(tail, path)[k - 1] == r);
                        }
                        assert(tail.contains(r));
                        let m = choose|m: int| 0 <= m < tail.len() && tail[m] == r;
                        assert(rows[m + 1] == r);
                    }
                }
            }
        }
    }
}

/// Deleting one image keeps a duplicate-free pairing record duplicate-free,
/// leaves no pairing of that image, and keeps every other pairing.
proof fn lemma_links_without_image_props(links: Seq<TagLink>, image_id: u64)
    requires
        links_unique(links),
    ensures
        links_unique(links_without_image(links, image_id)),
        forall|t: u64| !has_link(links_without_image(links, image_id), image_id, t),
        forall|i2: u64, t2: u64|
            i2 != image_id ==> (has_link(links_without_image(links, image_id), i2, t2) <==> has_link(
                links,
                i2,
                t2,
            )),
        forall|l: TagLink|
            #[trigger] links_without_image(links, image_id).contains(l) ==> links.contains(l)
                && l.image_id != image_id,
    decreases links.len(),
{
    let res = links_without_image(links, image_id);
    if links.len() == 0 {
    } else {
        let tail = links.drop_first();
        assert(forall|j: int| 0 <= j < tail.len() ==> #[trigger] tail[j] == links[j + 1]);
        assert(links_unique(tail));
        lemma_links_without_image_props(tail, image_id);
        let rt = links_without_image(tail, image_id);
        assert forall|l: TagLink| rt.contains(l) implies links.contains(l) && l.image_id
            != image_id by {
            assert(tail.contains(l));
            let m = choose|m: int| 0 <= m < tail.len() && tail[m] == l;
            assert(links[m + 1] == l);
        }
        if links[0].image_id == image_id {
            assert(res == rt);
            assert forall|i2: u64, t2: u64| i2 != image_id implies (has_link(res, i2, t2)
                <==> has_link(links, i2, t2)) by {
                if has_link(links, i2, t2) {
                    let k = choose|k: int|
                        0 <= k < links.len() && links[k].image_id == i2 && links[k].tag_id == t2;
                    assert(k > 0);
                    assert(tail[k - 1].image_id == i2 && tail[k - 1].tag_id == t2);
                    assert(has_link(tail, i2, t2));
                }
                if has_link(res, i2, t2) {
                    assert(has_link(tail, i2, t2));
                    let k = choose|k: int|
                        0 <= k < tail.len() && tail[k].image_id == i2 && tail[k].tag_id == t2;
                    assert(links[k + 1].image_id == i2 && links[k + 1].tag_id == t2);
                }
            }
        } else {
            assert(res == seq![links[0]] + rt);
            assert(res[0] == links[0]);
            assert(links_unique(res)) by {
                assert forall|k: int, l: int| 0 <= k < l < res.len() implies !((
                #[trigger] res[k]).image_id == (#[trigger] res[l]).image_id && res[k].tag_id
                    == res[l].tag_id) by {
                    if k == 0 {
                        let x = res[l];
                        assert(rt[l - 1] == x);
                        assert(rt.contains(x)) by {
                            assert(rt[l - 1] == x);
                        }
                        assert(tail.contains(x));
                        let m = choose|m: int| 0 <= m < tail.len() && tail[m] == x;
                        assert(links[m + 1] == x);
                        assert(!(links[0].image_id == links[m + 1].image_id && links[0].tag_id
                            == links[m + 1].tag_id));
                    } else {
                        assert(res[k] == rt[k - 1] && res[l] == rt[l - 1]);
                    }
                }
            }
            assert forall|t: u64| !has_link(res, image_id, t) by {
                if has_link(res, image_id, t) {
                    let k = choose|k: int|
                        0 <= k < res.len() && res[k].image_id == image_id && res[k].tag_id == t;
                    assert(k > 0);
                    assert(rt[k - 1].image_id == image_id && rt[k - 1].tag_id == t);
                    assert(has_link(rt, image_id, t));
                }
            }
            assert forall|i2: u64, t2: u64| i2 != image_id implies (has_link(res, i2, t2)
                <==> has_link(links, i2, t2)) by {
                if has_link(res, i2, t2) {
                    let k = choose|k: int|
                        0 <= k < res.len() && res[k].image_id == i2 && res[k].tag_id == t2;
                    if k == 0 {
                        assert(links[0].image_id == i2 && links[0].tag_id == t2);
                    } else {
                        assert(rt[k - 1].image_id == i2 && rt[k - 1].tag_id == t2);
                        assert(has_link(rt, i2, t2));
                        assert(has_link(tail, i2, t2));
                        let m = choose|m: int|
                            0 <= m < tail.len() && tail[m].image_id == i2 && tail[m].tag_id == t2;
                        assert(links[m + 1].image_id == i2 && links[m + 1].tag_id == t2);
                    }
                }
                if has_link(links, i2, t2) {
                    let k = choose|k: int|
                        0 <= k < links.len() && links[k].image_id == i2 && links[k].tag_id == t2;
                    if k == 0 {
                        assert(res[0].image_id == i2 && res[0].tag_id == t2);
                    } else {
                        assert(tail[k - 1].image_id == i2 && tail[k - 1].tag_id == t2);
                        assert(has_link(tail, i2, t2));
                        assert(has_link(rt, i2, t2));
                        let m = choose|m: int|
                            0 <= m < rt.len() && rt[m].image_id == i2 && rt[m].tag_id == t2;
                        assert(res[m + 1].image_id == i2 && res[m + 1].tag_id == t2);
                    }
                }
            }
            assert forall|l: TagLink| res.contains(l) implies links.contains(l) && l.image_id
                != image_id by {
                let k = choose|k: int| 0 <= k < res.len() && res[k] == l;
                if k == 0 {
                    assert(links[0] == l);
                } else {
                    assert(rt[k - 1] == l);
                    assert(rt.contains(l)) by {
                        assert(rt[k - 1] == l);
                    }
                }
            }
        }
    }
}

/// Removing an absent pairing changes nothing.
proof fn lemma_remove_link_absent(links: Seq<TagLink>, image_id: u64, tag_id: u64)
    requires
        !has_link(links, image_id, tag_id),
    ensures
        remove_link(links, image_id, tag_id) == links,
    decreases links.len(),
{
    if links.len() > 0 {
        assert(!(links[0].image_id == image_id && links[0].tag_id == tag_id));
        assert(!has_link(links.drop_first(), image_id, tag_id)) by {
            if has_link(links.drop_first(), image_id, tag_id) {
                let k = choose|k: int|
                    0 <= k < links.drop_first().len() && links.drop_first()[k].image_id == image_id
                        && links.drop_first()[k].tag_id == tag_id;
                assert(links[k + 1].image_id == image_id && links[k + 1].tag_id == tag_id);
            }
        }
        lemma_remove_link_absent(links.drop_first(), image_id, tag_id);
        assert(remove_link(links, image_id, tag_id) =~= links);
    }
}

/// When the first occurrence of a pairing stands at position `i`, removing
/// the pairing removes exactly that position.
proof fn lemma_remove_link_at(links: Seq<TagLink>, image_id: u64, tag_id: u64, i: int)
    requires
        0 <= i < links.len(),
        links[i].image_id == image_id && links[i].tag_id == tag_id,
        forall|j: int|
            0 <= j < i ==> !((#[trigger] links[j]).image_id == image_id && links[j].tag_id
                == tag_id),
    ensures
        remove_link(links, image_id, tag_id) == links.remove(i),
    decreases links.len(),
{
    if i == 0 {
        assert(remove_link(links, image_id, tag_id) =~= links.remove(0));
    } else {
        let tail = links.drop_first();
        assert(tail[i - 1] == links[i]);
        assert(forall|j: int| 0 <= j < i - 1 ==> #[trigger] tail[j] == links[j + 1]);
        lemma_remove_link_at(tail, image_id, tag_id, i - 1);
        assert(remove_link(links, image_id, tag_id) =~= links.remove(i));
    }
}

/// Removing a pairing from a duplicate-free record leaves a duplicate-free
/// record without that pairing and with every other pairing untouched.
proof fn lemma_remove_link_props(links: Seq<TagLink>, image_id: u64, tag_id: u64)
    requires
        links_unique(links),
    ensures
        links_unique(remove_link(links, image_id, tag_id)),
        !has_link(remove_link(links, image_id, tag_id), image_id, tag_id),
        forall|i2: u64, t2: u64|
            !(i2 == image_id && t2 == tag_id) ==> (has_link(
                remove_link(links, image_id, tag_id),
                i2,
                t2,
            ) <==> has_link(links, i2, t2)),
        forall|l: TagLink| remove_link(links, image_id, tag_id).contains(l) ==> links.contains(l),
{
    let r = remove_link(links, image_id, tag_id);
    if !has_link(links, image_id, tag_id) {
        lemma_remove_link_absent(links, image_id, tag_id);
    } else {
        let i = choose|i: int|
            0 <= i < links.len() && links[i].image_id == image_id && links[i].tag_id == tag_id;
        assert(forall|j: int|
            0 <= j < i ==> !((#[trigger] links[j]).image_id == image_id && links[j].tag_id
                == tag_id));
        lemma_remove_link_at(links, image_id, tag_id, i);
        links.remove_ensures(i);
        assert(links_unique(r)) by {
            assert forall|k: int, l: int| 0 <= k < l < r.len() implies !((#[trigger] r[k]).image_id
                == (#[trigger] r[l]).image_id && r[k].tag_id == r[l].tag_id) by {
                let sk: int = if k < i {
                    k
                } else {
                    k + 1
                };
                let sl: int = if l < i {
                    l
                } else {
                    l + 1
                };
                assert(r[k] == links[sk]);
                assert(r[l] == links[sl]);
            }
        }
        assert(!has_link(r, image_id, tag_id)) by {
            if has_link(r, image_id, tag_id) {
                let k = choose|k: int|
                    0 <= k < r.len() && r[k].image_id == image_id && r[k].tag_id == tag_id;
                if k < i {
                    assert(links[k].image_id == image_id && links[k].tag_id == tag_id);
                } else {
                    assert(links[k + 1].image_id == image_id && links[k + 1].tag_id == tag_id);
                }
            }
        }
        assert forall|i2: u64, t2: u64| !(i2 == image_id && t2 == tag_id) implies (has_link(
            r,
            i2,
            t2,
        ) <==> has_link(links, i2, t2)) by {
            if has_link(r, i2, t2) {
                let k = choose|k: int| 0 <= k < r.len() && r[k].image_id == i2 && r[k].tag_id == t2;
                if k < i {
                    assert(links[k].image_id == i2 && links[k].tag_id == t2);
                } else {
                    assert(links[k + 1].image_id == i2 && links[k + 1].tag_id == t2);
                }
            }
            if has_link(links, i2, t2) {
                let k = choose|k: int|
                    0 <= k < links.len() && links[k].image_id == i2 && links[k].tag_id == t2;
                assert(k != i);
                if k < i {
                    assert(r[k] == links[k]);
                } else {
                    assert(r[k - 1] == links[k]);
                }
            }
        }
        assert forall|l: TagLink| r.contains(l) implies links.contains(l) by {
            if r.contains(l) {
                let k = choose|k: int| 0 <= k < r.len() && r[k] == l;
                if k < i {
                    assert(links[k] == l);
                } else {
                    assert(links[k + 1] == l);
                }
            }
        }
    }
}

/// Round trip: applying an absent pairing and then removing it restores
/// the record exactly.
pub proof fn lemma_link_unlink_roundtrip(links: Seq<TagLink>, image_id: u64, tag_id: u64)
    requires
        !has_link(links, image_id, tag_id),
    ensures
        remove_link(links.push((TagLink { image_id, tag_id })), image_id, tag_id) == links,
    decreases links.len(),
{
    let pushed = links.push(TagLink { image_id, tag_id });
    if links.len() == 0 {
        assert(pushed[0].image_id == image_id && pushed[0].tag_id == tag_id);
        assert(remove_link(pushed, image_id, tag_id) =~= links);
    } else {
        assert(!(links[0].image_id == image_id && links[0].tag_id == tag_id)) by {
            if links[0].image_id == image_id && links[0].tag_id == tag_id {
                assert(has_link(links, image_id, tag_id));
            }
        }
        assert(!has_link(links.drop_first(), image_id, tag_id)) by {
            if has_link(links.drop_first(), image_id, tag_id) {
                let k = choose|k: int|
                    0 <= k < links.drop_first().len() && links.drop_first()[k].image_id == image_id
                        && links.drop_first()[k].tag_id == tag_id;
                assert(links[k + 1].image_id == image_id && links[k + 1].tag_id == tag_id);
            }
        }
        lemma_link_unlink_roundtrip(links.drop_first(), image_id, tag_id);
        assert(pushed[0] == links[0]);
        assert(pushed.drop_first() =~= links.drop_first().push(TagLink { image_id, tag_id }));
        assert(remove_link(pushed, image_id, tag_id) =~= links);
    }
}

/// Looking a name up in rows that do not hold it, extended by a row with
/// that name, finds the new row.
proof fn lemma_tag_id_of_push_new(rows: Seq<TagRow>, row: TagRow, name: Seq<char>)
    requires
        tag_id_of(rows, name) is None,
        row.name@ == name,
    ensures
        tag_id_of(rows.push(row), name) == Some(row.id),
    decreases rows.len(),
{
    if rows.len() == 0 {
        assert(rows.push(row)[0] == row);
    } else {
        assert(rows.push(row)[0] == rows[0]);
        assert(rows.push(row).drop_first() =~= rows.drop_first().push(row));
        lemma_tag_id_of_push_new(rows.drop_first(), row, name);
    }
}

} // verus!
