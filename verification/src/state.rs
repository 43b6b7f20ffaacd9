//! The interface thread's state and its handlers.
//!
//! Everything the browser shows is derived from this structure: the store,
//! the tag catalog mirrored from it, the open images, the selection and its
//! checkbox flags, and the loading pipeline. Every handler keeps the
//! mirrors in step with the store: after any action the catalog holds
//! exactly the tag names on record, and the selected image's tag list holds
//! exactly the tags applied to its row.

use vstd::prelude::*;

use crate::catalog::{
    insert_if_absent, insert_tag_if_absent, lemma_insert_if_absent_contains,
    recompute_selection_flags, remove_name, remove_tag, selection_flags_spec, strictly_sorted,
};
use crate::db::{
    has_link, has_tag_name, image_has_tag_name, image_id_of, lemma_has_tag_name_push,
    lemma_image_id_of_push, lemma_image_id_of_push_preserves, lemma_image_tag_name_push_row,
    lemma_image_tags_after_link, lemma_image_tags_after_unlink, lemma_tag_id_of_some_iff,
    lemma_unreferenced_image_no_tags, remove_image_row, tag_id_of, Database, TagRow,
};
use crate::image::{file_name_of, ImageData, OpenImage};
use crate::pipeline::{DecodeOutcome, LoadPipeline};

verus! {

/// The catalog mirrors the tag table: sorted, holding exactly the names on
/// record.
pub open spec fn catalog_mirrors_db(catalog: Seq<Seq<char>>, tags: Seq<TagRow>) -> bool {
    &&& strictly_sorted(catalog)
    &&& forall|n: Seq<char>| #[trigger] catalog.contains(n) <==> has_tag_name(tags, n)
}

/// An open image's tag list mirrors the store: sorted, holding exactly the
/// names of the tags applied to its row; an image without a row has none.
pub open spec fn image_mirrors_db(im: OpenImage, db: Database) -> bool {
    &&& strictly_sorted(im.tags.deep_view())
    &&& (match image_id_of(db.images@, im.name@) {
        Some(id) => forall|n: Seq<char>|
            #[trigger] im.tags.deep_view().contains(n) <==> image_has_tag_name(
                db.tags@,
                db.image_tags@,
                id,
                n,
            ),
        None => im.tags@.len() == 0,
    })
}

/// The whole state the interface thread owns.
pub struct AppState {
    /// The embedded store.
    pub db: Database,
    /// The sorted catalog of all known tag names.
    pub catalog: Vec<String>,
    /// The images currently open in the grid.
    pub open_images: Vec<OpenImage>,
    /// Which open image is selected, if any.
    pub selected: Option<usize>,
    /// One flag per catalog entry: whether the selected image carries it.
    pub selection_flags: Vec<bool>,
    /// The background loading pipeline.
    pub pipeline: LoadPipeline,
}

impl AppState {
    /// The state invariant: the store and the pipeline are well formed,
    /// the catalog mirrors the tag table, the flags line up with the
    /// catalog, and the selected image - if any - exists and mirrors the
    /// store.
    pub open spec fn wf(self) -> bool {
        &&& self.db.inv()
        &&& self.pipeline.inv()
        &&& catalog_mirrors_db(self.catalog.deep_view(), self.db.tags@)
        &&& self.selection_flags@.len() == self.catalog@.len()
        &&& (match self.selected {
            Some(i) => i < self.open_images@.len() && image_mirrors_db(
                self.open_images@[i as int],
                self.db,
            ) && self.selection_flags@ == selection_flags_spec(
                self.catalog.deep_view(),
                self.open_images@[i as int].tags.deep_view(),
            ),
            None => true,
        })
    }

    /// A fresh state over an empty store, as after creating a new
    /// database.
    pub fn new() -> (st: AppState)
        ensures
            st.wf(),
            st.db.images@.len() == 0,
            st.db.tags@.len() == 0,
            st.db.image_tags@.len() == 0,
            st.catalog@.len() == 0,
            st.open_images@.len() == 0,
            st.selected is None,
            st.selection_flags@.len() == 0,
            st.pipeline.submitted@ == Seq::<Seq<char>>::empty(),
            st.pipeline.images_in_flight == 0,
    {
        let st = AppState {
            db: Database::new(),
            catalog: Vec::new(),
            open_images: Vec::new(),
            selected: None,
            selection_flags: Vec::new(),
            pipeline: LoadPipeline::new(),
        };
        proof {
            assert(st.catalog.deep_view() =~= Seq::<Seq<char>>::empty());
            assert forall|n: Seq<char>| #[trigger]
                st.catalog.deep_view().contains(n) <==> has_tag_name(st.db.tags@, n) by {
                if has_tag_name(st.db.tags@, n) {
                    let k = choose|k: int|
                        0 <= k < st.db.tags@.len() && (#[trigger] st.db.tags@[k]).name@ == n;
                }
            }
        }
        st
    }

    /// Queues a batch of paths for loading, as after a drop onto the
    /// window or a multi-selection in the file dialog.
    #[verifier::loop_isolation(false)]
    pub fn submit_paths(&mut self, paths: Vec<String>)
        requires
            old(self).wf(),
            old(self).pipeline.images_in_flight + paths@.len() <= usize::MAX,
        ensures
            final(self).wf(),
            final(self).pipeline.submitted@ == old(self).pipeline.submitted@
                + paths.deep_view(),
            final(self).pipeline.images_in_flight == old(self).pipeline.images_in_flight
                + paths@.len(),
            final(self).db == old(self).db,
            final(self).catalog@ == old(self).catalog@,
            final(self).open_images@ == old(self).open_images@,
            final(self).selected == old(self).selected,
            final(self).selection_flags@ == old(self).selection_flags@,
    {
        let n = paths.len();
        let mut i: usize = 0;
        proof {
            assert(paths.deep_view().take(0) =~= Seq::<Seq<char>>::empty());
            assert(self.pipeline.submitted@ + paths.deep_view().take(0)
                =~= self.pipeline.submitted@);
        }
        while i < n
            invariant
                i <= n,
                n == paths@.len(),
                self.pipeline.inv(),
                self.pipeline.submitted@ == old(self).pipeline.submitted@
                    + paths.deep_view().take(i as int),
                self.pipeline.images_in_flight == old(self).pipeline.images_in_flight + i,
                self.db == old(self).db,
                self.catalog@ == old(self).catalog@,
                self.open_images@ == old(self).open_images@,
                self.selected == old(self).selected,
                self.selection_flags@ == old(self).selection_flags@,
            decreases n - i,
        {
            self.pipeline.submit(paths[i].clone());
            proof {
                assert(paths.deep_view().take(i as int).push(paths@[i as int]@)
                    =~= paths.deep_view().take(i as int + 1));
                assert(self.pipeline.submitted@ =~= old(self).pipeline.submitted@
                    + paths.deep_view().take(i as int + 1));
            }
            i = i + 1;
        }
        proof {
            assert(paths.deep_view().take(n as int) =~= paths.deep_view());
        }
    }

    /// Per-frame poll of the pipeline: the oldest finished outcome, if any
    /// is ready.
    pub fn poll_result(&mut self) -> (r: Option<DecodeOutcome>)
        requires
            old(self).wf(),
        ensures
            final(self).wf(),
            old(self).pipeline.results@.len() == 0 ==> r is None && final(self).pipeline.submitted@
                == old(self).pipeline.submitted@ && final(self).pipeline.images_in_flight == old(
                self,
            ).pipeline.images_in_flight,
            old(self).pipeline.results@.len() > 0 ==> {
                &&& r == Some(old(self).pipeline.results@[0])
                &&& final(self).pipeline.images_in_flight == old(self).pipeline.images_in_flight
                    - 1
            },
            final(self).db == old(self).db,
            final(self).catalog@ == old(self).catalog@,
            final(self).open_images@ == old(self).open_images@,
            final(self).selected == old(self).selected,
            final(self).selection_flags@ == old(self).selection_flags@,
    {
        self.pipeline.try_receive()
    }

    /// Opens a freshly decoded image: registers its file name in the
    /// store, mirrors the tags already on record for it, and appends it to
    /// the open grid.
    pub fn register_image(&mut self, data: &ImageData, path: String, texture: u32)
        requires
            old(self).wf(),
            old(self).db.next_image_id < u64::MAX,
        ensures
            final(self).wf(),
            final(self).open_images@.len() == old(self).open_images@.len() + 1,
            forall|j: int|
                0 <= j < old(self).open_images@.len() ==> final(self).open_images@[j] == old(
                    self,
                ).open_images@[j],
            ({
                let im = final(self).open_images@.last();
                &&& im.name@ == file_name_of(path@)
                &&& im.original_path@ == path@
                &&& im.texture == texture
                &&& im.width == data.width
                &&& im.height == data.height
                &&& image_mirrors_db(im, final(self).db)
            }),
            image_id_of(final(self).db.images@, file_name_of(path@)) is Some,
            final(self).db.tags@ == old(self).db.tags@,
            final(self).db.image_tags@ == old(self).db.image_tags@,
            final(self).catalog@ == old(self).catalog@,
            final(self).selected == old(self).selected,
            final(self).selection_flags@ == old(self).selection_flags@,
            final(self).pipeline == old(self).pipeline,
    {
        let mut im = OpenImage::from_imagedata(data, path, texture);
        let ghost im_name = im.name@;
        let _id = self.db.ensure_image(&im.name);
        let fetched = self.db.tags_of_image(&im.name);
        im.tags = fetched;
        self.open_images.push(im);
        proof {
            let images_before = old(self).db.images@;
            if let Some(i) = old(self).selected {
                let sel = old(self).open_images@[i as int];
                assert(self.open_images@[i as int] == sel);
                if image_id_of(images_before, im_name) is None {
                    // a fresh row was appended for the new image
                    let row = self.db.images@.last();
                    assert(self.db.images@ == images_before.push(row));
                    match image_id_of(images_before, sel.name@) {
                        Some(v) => {
                            lemma_image_id_of_push_preserves(images_before, row, sel.name@);
                        },
                        None => {
                            lemma_image_id_of_push(images_before, row, sel.name@);
                            if row.path@ == sel.name@ {
                                // the selected image had no row; the fresh
                                // row carries an id no pairing references
                                assert(sel.tags.deep_view().len() == 0);
                                assert forall|n: Seq<char>|
                                    #[trigger] sel.tags.deep_view().contains(n)
                                        <==> image_has_tag_name(
                                        self.db.tags@,
                                        self.db.image_tags@,
                                        row.id,
                                        n,
                                    ) by {
                                    if image_has_tag_name(
                                        self.db.tags@,
                                        self.db.image_tags@,
                                        row.id,
                                        n,
                                    ) {
                                        let k = choose|k: int|
                                            0 <= k < self.db.tags@.len() && (
                                            #[trigger] self.db.tags@[k]).name@ == n && has_link(
                                                self.db.image_tags@,
                                                row.id,
                                                self.db.tags@[k].id,
                                            );
                                        let l = choose|l: int|
                                            0 <= l < self.db.image_tags@.len()
                                                && self.db.image_tags@[l].image_id == row.id
                                                && self.db.image_tags@[l].tag_id
                                                == self.db.tags@[k].id;
                                        assert(crate::db::has_image_id(
                                            images_before,
                                            self.db.image_tags@[l].image_id,
                                        ));
                                        let u = choose|u: int|
                                            0 <= u < images_before.len() && images_before[u].id
                                                == row.id;
                                        assert(images_before[u].id < old(self).db.next_image_id);
                                    }
                                }
                            }
                        },
                    }
                }
            }
        }
    }

    /// Selects one open image: its tag list is refreshed from the store,
    /// so the mirror holds even when the same file is open twice, and the
    /// checkbox flags are recomputed against the catalog.
    pub fn select_image(&mut self, i: usize)
        requires
            old(self).wf(),
            i < old(self).open_images@.len(),
        ensures
            final(self).wf(),
            final(self).selected == Some(i),
            image_mirrors_db(final(self).open_images@[i as int], final(self).db),
            final(self).selection_flags@ == selection_flags_spec(
                final(self).catalog.deep_view(),
                final(self).open_images@[i as int].tags.deep_view(),
            ),
            final(self).open_images@.len() == old(self).open_images@.len(),
            forall|j: int|
                0 <= j < old(self).open_images@.len() && j != i ==> final(self).open_images@[j]
                    == old(self).open_images@[j],
            final(self).open_images@[i as int].name == old(self).open_images@[i as int].name,
            final(self).open_images@[i as int].original_path == old(
                self,
            ).open_images@[i as int].original_path,
            final(self).open_images@[i as int].texture == old(self).open_images@[i as int].texture,
            final(self).db == old(self).db,
            final(self).catalog@ == old(self).catalog@,
            final(self).pipeline == old(self).pipeline,
    {
        let fetched = self.db.tags_of_image(&self.open_images[i].name);
        let im = &mut self.open_images[i];
        im.tags = fetched;
        let flags = recompute_selection_flags(&self.catalog, &self.open_images[i].tags);
        self.selection_flags = flags;
        self.selected = Some(i);
    }

    /// Closes the selected image: it leaves the grid and the selection is
    /// cleared; the store keeps its row and tags. The removed record is
    /// handed back so its texture can be released.
    pub fn close_selected_image(&mut self) -> (r: Option<OpenImage>)
        requires
            old(self).wf(),
        ensures
            final(self).wf(),
            final(self).db == old(self).db,
            final(self).catalog@ == old(self).catalog@,
            final(self).selection_flags@ == old(self).selection_flags@,
            final(self).pipeline == old(self).pipeline,
            (match old(self).selected {
                Some(i) => {
                    &&& r == Some(old(self).open_images@[i as int])
                    &&& final(self).open_images@ == old(self).open_images@.remove(i as int)
                    &&& final(self).selected is None
                },
                None => r is None && final(self).open_images@ == old(self).open_images@
                    && final(self).selected is None,
            }),
    {
        let i: usize = match self.selected {
            None => {
                return None;
            },
            Some(i) => i,
        };
        self.selected = None;
        let im = self.open_images.remove(i);
        Some(im)
    }

    /// Deletes the selected image: its row and every pairing that
    /// references it leave the store, the image leaves the grid, and the
    /// selection is cleared. The removed record is handed back so its
    /// texture can be released and its files removed from disk.
    pub fn delete_selected_image(&mut self) -> (r: Option<OpenImage>)
        requires
            old(self).wf(),
        ensures
            final(self).wf(),
            final(self).catalog@ == old(self).catalog@,
            final(self).selection_flags@ == old(self).selection_flags@,
            final(self).pipeline == old(self).pipeline,
            final(self).db.tags@ == old(self).db.tags@,
            (match old(self).selected {
                Some(i) => {
                    &&& r == Some(old(self).open_images@[i as int])
                    &&& final(self).open_images@ == old(self).open_images@.remove(i as int)
                    &&& final(self).selected is None
                    &&& final(self).db.images@ == remove_image_row(
                        old(self).db.images@,
                        old(self).open_images@[i as int].name@,
                    )
                    &&& image_id_of(
                        final(self).db.images@,
                        old(self).open_images@[i as int].name@,
                    ) is None
                    &&& forall|id: u64|
                        image_id_of(
                            old(self).db.images@,
                            old(self).open_images@[i as int].name@,
                        ) == Some(id) ==> forall|t: u64|
                            !has_link(final(self).db.image_tags@, id, t)
                },
                None => r is None && final(self).open_images@ == old(self).open_images@
                    && final(self).selected is None && final(self).db == old(self).db,
            }),
    {
        let i: usize = match self.selected {
            None => {
                return None;
            },
            Some(i) => i,
        };
        let name = self.open_images[i].name.clone();
        self.db.delete_image(&name);
        proof {
            let imgs = old(self).db.images@;
            if image_id_of(imgs, name@) is Some {
                let v = image_id_of(imgs, name@).unwrap();
                assert(image_id_of(imgs, name@) == Some(v));
                assert(self.db.image_tags@ == crate::db::links_without_image(
                    old(self).db.image_tags@,
                    v,
                ));
                assert(forall|t: u64| !has_link(self.db.image_tags@, v, t));
            }
        }
        self.selected = None;
        let im = self.open_images.remove(i);
        Some(im)
    }

    /// Creates a tag and applies it to the selected image. A name already
    /// in the catalog is not created twice; the existing tag is still
    /// applied to the image. Nothing happens without a selection.
    #[verifier::rlimit(60)]
    pub fn create_and_apply_tag(&mut self, name: &String) -> (applied: bool)
        requires
            old(self).wf(),
            old(self).db.next_tag_id < u64::MAX,
            old(self).db.next_image_id < u64::MAX,
        ensures
            final(self).wf(),
            old(self).selected is None ==> !applied && final(self).db == old(self).db
                && final(self).catalog@ == old(self).catalog@
                && final(self).open_images@ == old(self).open_images@
                && final(self).selected is None
                && final(self).selection_flags@ == old(self).selection_flags@
                && final(self).pipeline == old(self).pipeline,
            (match old(self).selected {
                Some(i) => {
                    &&& applied
                    &&& final(self).selected == Some(i)
                    &&& final(self).catalog.deep_view() == insert_if_absent(
                        old(self).catalog.deep_view(),
                        name@,
                    )
                    &&& final(self).catalog.deep_view().contains(name@)
                    &&& has_tag_name(final(self).db.tags@, name@)
                    &&& final(self).open_images@.len() == old(self).open_images@.len()
                    &&& (forall|j: int|
                        0 <= j < old(self).open_images@.len() && j != i
                            ==> final(self).open_images@[j] == old(self).open_images@[j])
                    &&& final(self).open_images@[i as int].tags.deep_view() == insert_if_absent(
                        old(self).open_images@[i as int].tags.deep_view(),
                        name@,
                    )
                    &&& final(self).open_images@[i as int].tags.deep_view().contains(name@)
                    &&& final(self).open_images@[i as int].name == old(
                        self,
                    ).open_images@[i as int].name
                    &&& image_id_of(
                        final(self).db.images@,
                        old(self).open_images@[i as int].name@,
                    ) is Some
                    &&& final(self).pipeline == old(self).pipeline
                },
                None => true,
            }),
    {
        let i: usize = match self.selected {
            None => {
                return false;
            },
            Some(i) => i,
        };
        let ghost tags0 = self.db.tags@;
        let ghost links0 = self.db.image_tags@;
        let ghost images0 = self.db.images@;
        let ghost sel0 = self.open_images@[i as int];
        let iid = self.db.ensure_image(&self.open_images[i].name);
        proof {
            // what the selected image carried before, in terms of its row id
            if image_id_of(images0, sel0.name@) is None {
                assert forall|k: int|
                    0 <= k < links0.len() implies (#[trigger] links0[k]).image_id != iid by {
                    assert(crate::db::has_image_id(images0, links0[k].image_id));
                    let u = choose|u: int|
                        0 <= u < images0.len() && images0[u].id == links0[k].image_id;
                    assert(images0[u].id < old(self).db.next_image_id);
                }
                lemma_unreferenced_image_no_tags(tags0, links0, iid);
            }
        }
        let tid = self.db.ensure_tag(name);
        let ghost tags1 = self.db.tags@;
        proof {
            if tag_id_of(tags0, name@) is None {
                let trow = tags1.last();
                assert(tags1 == tags0.push(trow));
                lemma_has_tag_name_push(tags0, trow);
                assert forall|k: int|
                    0 <= k < links0.len() implies (#[trigger] links0[k]).tag_id != trow.id by {
                    assert(crate::db::has_tag_id(tags0, links0[k].tag_id));
                    let u = choose|u: int|
                        0 <= u < tags0.len() && tags0[u].id == links0[k].tag_id;
                    assert(tags0[u].id < old(self).db.next_tag_id);
                }
                lemma_image_tag_name_push_row(tags0, trow, links0, iid);
            } else {
                lemma_tag_id_of_some_iff(tags0, name@);
            }
        }
        self.db.link_tag(iid, tid);
        proof {
            lemma_image_tags_after_link(
                tags1,
                links0,
                self.db.image_tags@,
                iid,
                tid,
                name@,
            );
            lemma_insert_if_absent_contains(old(self).catalog.deep_view(), name@);
            lemma_insert_if_absent_contains(sel0.tags.deep_view(), name@);
        }
        insert_tag_if_absent(&mut self.catalog, name);
        let im = &mut self.open_images[i];
        insert_tag_if_absent(&mut im.tags, name);
        let flags = recompute_selection_flags(&self.catalog, &self.open_images[i].tags);
        self.selection_flags = flags;
        true
    }

    /// Applies or removes the catalog tag at position `k` on the selected
    /// image, as when its checkbox is toggled. The catalog itself never
    /// shrinks: removing a tag from an image keeps its name on record.
    /// Nothing happens without a selection.
    #[verifier::rlimit(60)]
    pub fn toggle_tag(&mut self, k: usize, apply: bool) -> (done: bool)
        requires
            old(self).wf(),
            k < old(self).catalog@.len(),
            old(self).db.next_image_id < u64::MAX,
        ensures
            final(self).wf(),
            old(self).selected is None ==> !done && final(self).db == old(self).db
                && final(self).catalog@ == old(self).catalog@
                && final(self).open_images@ == old(self).open_images@
                && final(self).selected is None
                && final(self).selection_flags@ == old(self).selection_flags@
                && final(self).pipeline == old(self).pipeline,
            (match old(self).selected {
                Some(i) => {
                    &&& done
                    &&& final(self).selected == Some(i)
                    &&& final(self).catalog@ == old(self).catalog@
                    &&& final(self).db.tags@ == old(self).db.tags@
                    &&& final(self).open_images@.len() == old(self).open_images@.len()
                    &&& (forall|j: int|
                        0 <= j < old(self).open_images@.len() && j != i
                            ==> final(self).open_images@[j] == old(self).open_images@[j])
                    &&& (apply ==> final(self).open_images@[i as int].tags.deep_view()
                        == insert_if_absent(
                        old(self).open_images@[i as int].tags.deep_view(),
                        old(self).catalog.deep_view()[k as int],
                    ))
                    &&& (!apply ==> final(self).open_images@[i as int].tags.deep_view()
                        == remove_name(
                        old(self).open_images@[i as int].tags.deep_view(),
                        old(self).catalog.deep_view()[k as int],
                    ))
                    &&& final(self).open_images@[i as int].name == old(
                        self,
                    ).open_images@[i as int].name
                    &&& final(self).pipeline == old(self).pipeline
                },
                None => true,
            }),
    {
        let i: usize = match self.selected {
            None => {
                return false;
            },
            Some(i) => i,
        };
        let name = self.catalog[k].clone();
        proof {
            assert(self.catalog.deep_view().contains(name@)) by {
                assert(self.catalog.deep_view()[k as int] == name@);
            }
            lemma_tag_id_of_some_iff(self.db.tags@, name@);
        }
        let tid = match self.db.tag_id(&name) {
            Some(t) => t,
            // the catalog mirrors the tag table, so the name is on record
            None => unreached(),
        };
        let ghost tags0 = self.db.tags@;
        let ghost links0 = self.db.image_tags@;
        let ghost images0 = self.db.images@;
        let ghost sel0 = self.open_images@[i as int];
        if apply {
            let iid = self.db.ensure_image(&self.open_images[i].name);
            proof {
                if image_id_of(images0, sel0.name@) is None {
                    assert forall|k2: int|
                        0 <= k2 < links0.len() implies (#[trigger] links0[k2]).image_id
                        != iid by {
                        assert(crate::db::has_image_id(images0, links0[k2].image_id));
                        let u = choose|u: int|
                            0 <= u < images0.len() && images0[u].id == links0[k2].image_id;
                        assert(images0[u].id < old(self).db.next_image_id);
                    }
                    lemma_unreferenced_image_no_tags(tags0, links0, iid);
                }
            }
            self.db.link_tag(iid, tid);
            proof {
                lemma_image_tags_after_link(
                    tags0,
                    links0,
                    self.db.image_tags@,
                    iid,
                    tid,
                    name@,
                );
                lemma_insert_if_absent_contains(sel0.tags.deep_view(), name@);
            }
            let im = &mut self.open_images[i];
            insert_tag_if_absent(&mut im.tags, &name);
            proof {
                let sel1 = self.open_images@[i as int];
                let links1 = self.db.image_tags@;
                assert(image_id_of(self.db.images@, sel1.name@) == Some(iid));
                assert forall|n: Seq<char>| #[trigger] sel1.tags.deep_view().contains(n)
                    <==> image_has_tag_name(tags0, links1, iid, n) by {
                    assert(sel1.tags.deep_view().contains(n) <==> (sel0.tags.deep_view().contains(
                        n,
                    ) || n == name@));
                    if image_id_of(images0, sel0.name@) is Some {
                        assert(sel0.tags.deep_view().contains(n) <==> image_has_tag_name(
                            tags0,
                            links0,
                            iid,
                            n,
                        ));
                    } else {
                        assert(!image_has_tag_name(tags0, links0, iid, n));
                        assert(sel0.tags@.len() == 0);
                        assert(!sel0.tags.deep_view().contains(n));
                    }
                    assert(image_has_tag_name(tags0, links1, iid, n) <==> (image_has_tag_name(
                        tags0,
                        links0,
                        iid,
                        n,
                    ) || n == name@));
                }
            }
        } else {
            let iid_opt = self.db.image_id(&self.open_images[i].name);
            match iid_opt {
                Some(iid) => {
                    self.db.unlink_tag(iid, tid);
                    proof {
                        lemma_image_tags_after_unlink(
                            tags0,
                            links0,
                            self.db.image_tags@,
                            iid,
                            tid,
                            name@,
                        );
                        crate::catalog::lemma_remove_name_props(sel0.tags.deep_view(), name@);
                    }
                },
                None => {
                    proof {
                        crate::catalog::lemma_remove_name_props(sel0.tags.deep_view(), name@);
                    }
                },
            }
            let im = &mut self.open_images[i];
            remove_tag(&mut im.tags, &name);
            proof {
                let sel1 = self.open_images@[i as int];
                let links1 = self.db.image_tags@;
                if image_id_of(images0, sel0.name@) is Some {
                    let idv = image_id_of(images0, sel0.name@).unwrap();
                    assert(image_id_of(self.db.images@, sel1.name@) == Some(idv));
                    assert forall|n: Seq<char>| #[trigger] sel1.tags.deep_view().contains(n)
                        <==> image_has_tag_name(tags0, links1, idv, n) by {
                        assert(sel1.tags.deep_view() == remove_name(sel0.tags.deep_view(), name@));
                        if n == name@ {
                            assert(!sel1.tags.deep_view().contains(n));
                            assert(!has_link(links1, idv, tid));
                            assert(!image_has_tag_name(tags0, links1, idv, n));
                        } else {
                            assert(sel1.tags.deep_view().contains(n)
                                <==> sel0.tags.deep_view().contains(n));
                            assert(sel0.tags.deep_view().contains(n) <==> image_has_tag_name(
                                tags0,
                                links0,
                                idv,
                                n,
                            ));
                            assert(image_has_tag_name(tags0, links1, idv, n)
                                <==> (image_has_tag_name(tags0, links0, idv, n) && n != name@));
                        }
                    }
                } else {
                    assert(sel0.tags@.len() == 0);
                    assert(sel0.tags.deep_view().len() == 0);
                    assert(sel1.tags.deep_view() =~= Seq::<Seq<char>>::empty());
                    assert(image_id_of(self.db.images@, sel1.name@) is None);
                }
            }
        }
        let flags = recompute_selection_flags(&self.catalog, &self.open_images[i].tags);
        self.selection_flags = flags;
        true
    }

    /// Clears the open grid and the selection, as when the open set is
    /// closed or replaced by a new filter. The texture handles of all
    /// removed images are handed back for release.
    #[verifier::loop_isolation(false)]
    pub fn clear_open_images(&mut self) -> (textures: Vec<u32>)
        requires
            old(self).wf(),
        ensures
            final(self).wf(),
            final(self).open_images@.len() == 0,
            final(self).selected is None,
            textures@.len() == old(self).open_images@.len(),
            forall|j: int|
                0 <= j < textures@.len() ==> textures@[j] == old(
                    self,
                ).open_images@[j].texture,
            final(self).db == old(self).db,
            final(self).catalog@ == old(self).catalog@,
            final(self).selection_flags@ == old(self).selection_flags@,
            final(self).pipeline == old(self).pipeline,
    {
        let mut textures: Vec<u32> = Vec::new();
        let n = self.open_images.len();
        let mut j: usize = 0;
        while j < n
            invariant
                j <= n,
                textures@.len() == j,
                forall|k: int|
                    0 <= k < j ==> textures@[k] == old(self).open_images@[k].texture,
                self == old(self),
            decreases n - j,
        {
            textures.push(self.open_images[j].texture);
            j = j + 1;
        }
        self.open_images.clear();
        self.selected = None;
        textures
    }

    /// Narrows the view to the images carrying the named tag: the open set
    /// and the selection are cleared and every matching path is submitted
    /// to the pipeline. The action is refused while any load is still in
    /// flight, so two filter batches can never interleave.
    pub fn filter_by_tag(&mut self, name: &String) -> (r: Option<Vec<u32>>)
        requires
            old(self).wf(),
        ensures
            final(self).wf(),
            old(self).pipeline.images_in_flight != 0 ==> r is None
                && final(self).db == old(self).db
                && final(self).catalog@ == old(self).catalog@
                && final(self).open_images@ == old(self).open_images@
                && final(self).selected == old(self).selected
                && final(self).selection_flags@ == old(self).selection_flags@
                && final(self).pipeline == old(self).pipeline,
            old(self).pipeline.images_in_flight == 0 ==> {
                &&& r is Some
                &&& r.unwrap()@.len() == old(self).open_images@.len()
                &&& (forall|j: int|
                    0 <= j < r.unwrap()@.len() ==> r.unwrap()@[j] == old(
                        self,
                    ).open_images@[j].texture)
                &&& final(self).open_images@.len() == 0
                &&& final(self).selected is None
                &&& final(self).db == old(self).db
                &&& final(self).catalog@ == old(self).catalog@
                &&& final(self).selection_flags@ == old(self).selection_flags@
                &&& (match tag_id_of(old(self).db.tags@, name@) {
                    Some(tid) => final(self).pipeline.submitted@
                        == old(self).pipeline.submitted@ + crate::db::paths_with_tag(
                        old(self).db.images@,
                        old(self).db.image_tags@,
                        tid,
                    ),
                    None => final(self).pipeline.submitted@ == old(self).pipeline.submitted@,
                })
            },
    {
        if self.pipeline.images_in_flight != 0 {
            return None;
        }
        let textures = self.clear_open_images();
        let paths = self.db.images_with_tag(name);
        let np = paths.len();
        proof {
            assert(paths@.len() == np);
            if tag_id_of(self.db.tags@, name@) is None {
                assert(paths.deep_view() =~= Seq::<Seq<char>>::empty());
                assert(self.pipeline.submitted@ + paths.deep_view()
                    =~= self.pipeline.submitted@);
            }
        }
        self.submit_paths(paths);
        Some(textures)
    }

    /// Opens a batch of images that carry no tag yet, capped at the given
    /// batch size. The open set and the selection are cleared first.
    pub fn load_untagged(&mut self, limit: usize) -> (textures: Vec<u32>)
        requires
            old(self).wf(),
            old(self).pipeline.images_in_flight + limit <= usize::MAX,
        ensures
            final(self).wf(),
            textures@.len() == old(self).open_images@.len(),
            forall|j: int|
                0 <= j < textures@.len() ==> textures@[j] == old(self).open_images@[j].texture,
            final(self).open_images@.len() == 0,
            final(self).selected is None,
            final(self).db == old(self).db,
            final(self).catalog@ == old(self).catalog@,
            final(self).selection_flags@ == old(self).selection_flags@,
            final(self).pipeline.submitted@ == old(self).pipeline.submitted@
                + crate::db::untagged_paths_capped(
                old(self).db.images@,
                old(self).db.image_tags@,
                limit as nat,
            ),
    {
        let textures = self.clear_open_images();
        let paths = self.db.untagged_image_paths(limit);
        proof {
            crate::db::lemma_untagged_capped_len(
                self.db.images@,
                self.db.image_tags@,
                limit as nat,
            );
        }
        self.submit_paths(paths);
        textures
    }

    /// Replaces the store with another one, as when a different database
    /// is opened: the open set and the selection are cleared and the
    /// catalog is rebuilt, sorted, from the tag names the store holds.
    #[verifier::loop_isolation(false)]
    pub fn adopt_database(&mut self, db: Database) -> (textures: Vec<u32>)
        requires
            old(self).wf(),
            db.inv(),
        ensures
            final(self).wf(),
            final(self).db == db,
            textures@.len() == old(self).open_images@.len(),
            forall|j: int|
                0 <= j < textures@.len() ==> textures@[j] == old(self).open_images@[j].texture,
            final(self).open_images@.len() == 0,
            final(self).selected is None,
            final(self).pipeline == old(self).pipeline,
    {
        let textures = self.clear_open_images();
        self.db = db;
        let mut cat: Vec<String> = Vec::new();
        let m = self.db.tags.len();
        let mut k: usize = 0;
        proof {
            assert(cat.deep_view() =~= Seq::<Seq<char>>::empty());
        }
        while k < m
            invariant
                k <= m,
                m == self.db.tags@.len(),
                strictly_sorted(cat.deep_view()),
                forall|n: Seq<char>|
                    #[trigger] cat.deep_view().contains(n) <==> exists|j: int|
                        0 <= j < k && (#[trigger] self.db.tags@[j]).name@ == n,
            decreases m - k,
        {
            let ghost before = cat.deep_view();
            proof {
                lemma_insert_if_absent_contains(before, self.db.tags@[k as int].name@);
            }
            insert_tag_if_absent(&mut cat, &self.db.tags[k].name);
            proof {
                assert forall|n: Seq<char>| #[trigger] cat.deep_view().contains(n) implies
                    exists|j: int| 0 <= j < k + 1 && (#[trigger] self.db.tags@[j]).name@ == n by {
                    if before.contains(n) {
                        let j = choose|j: int|
                            0 <= j < k && (#[trigger] self.db.tags@[j]).name@ == n;
                        assert(0 <= j < k + 1 && self.db.tags@[j].name@ == n);
                    } else {
                        assert(n == self.db.tags@[k as int].name@);
                    }
                }
                assert forall|n: Seq<char>|
                    (exists|j: int| 0 <= j < k + 1 && (#[trigger] self.db.tags@[j]).name@ == n)
                        implies #[trigger] cat.deep_view().contains(n) by {
                    let j = choose|j: int|
                        0 <= j < k + 1 && (#[trigger] self.db.tags@[j]).name@ == n;
                    if j < k {
                        assert(before.contains(n));
                    }
                }
            }
            k = k + 1;
        }
        let n = cat.len();
        self.catalog = cat;
        self.selection_flags = vec![false; n];
        textures
    }
}

} // verus!
