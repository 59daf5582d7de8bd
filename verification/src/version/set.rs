//! The version set: the current version, the edits that change it, and the names
//! of the files to come.

use vstd::prelude::*;
use crate::fs::FileId;
use crate::ondisk::TableView;
use crate::version::edit::{EditView, VersionEdit};
use crate::version::{apply_edit, layout_wf, Version, VersionError};

verus! {

/// The edits of a vector in their mathematical form.
pub open spec fn edit_views(edits: Seq<VersionEdit>) -> Seq<EditView> {
    Seq::new(edits.len(), |i: int| edits[i]@)
}

/// The layout after the edits have been applied in turn, or the reason why the
/// first edit that cannot be applied cannot.
pub open spec fn apply_all(levels: Seq<Seq<TableView>>, edits: Seq<EditView>) -> Result<
    Seq<Seq<TableView>>,
    VersionError,
>
    decreases edits.len(),
{
    if edits.len() == 0 {
        Ok(levels)
    } else {
        match apply_edit(levels, edits[0]) {
            Ok(next) => apply_all(next, edits.drop_first()),
            Err(e) => Err(e),
        }
    }
}

/// The files that the edits take out of the layout, in the order of the edits.
pub open spec fn removed_files(edits: Seq<EditView>) -> Seq<FileId>
    decreases edits.len(),
{
    if edits.len() == 0 {
        Seq::empty()
    } else {
        match edits.last() {
            EditView::Remove { gen, .. } => removed_files(edits.drop_last()).push(gen),
            EditView::Add { .. } => removed_files(edits.drop_last()),
        }
    }
}

/// Applying some edits and then one more.
pub proof fn lemma_apply_all_push(levels: Seq<Seq<TableView>>, edits: Seq<EditView>, edit: EditView)
    ensures
        apply_all(levels, edits.push(edit)) == match apply_all(levels, edits) {
            Ok(next) => apply_edit(next, edit),
            Err(e) => Err(e),
        },
    decreases edits.len(),
{
    let all = edits.push(edit);
    if edits.len() == 0 {
        assert(all.drop_first() =~= Seq::<EditView>::empty());
        assert(all[0] == edit);
        match apply_edit(levels, edit) {
            Ok(next) => {
                assert(apply_all(next, all.drop_first()) == Ok::<Seq<Seq<TableView>>, VersionError>(next));
            },
            Err(_) => {},
        }
        assert(apply_all(levels, edits) == Ok::<Seq<Seq<TableView>>, VersionError>(levels));
    } else {
        assert(all[0] == edits[0]);
        assert(all.drop_first() =~= edits.drop_first().push(edit));
        match apply_edit(levels, edits[0]) {
            Ok(next) => {
                lemma_apply_all_push(next, edits.drop_first(), edit);
            },
            Err(_) => {},
        }
    }
}

/// The current version of a database and what it takes to change it.
pub struct VersionSet {
    current: Version,
    number: u64,
    next_file: FileId,
}

impl VersionSet {
    /// The layout of the current version.
    pub closed spec fn levels(&self) -> Seq<Seq<TableView>> {
        self.current@
    }

    /// The number of the current version: how many times the layout has been
    /// edited.
    pub closed spec fn number(&self) -> u64 {
        self.number
    }

    /// The name that the next new file gets.
    pub closed spec fn next_file(&self) -> FileId {
        self.next_file
    }

    /// Number of user columns of every record.
    pub closed spec fn width(&self) -> nat {
        self.current.width()
    }

    /// The current version is well formed.
    pub closed spec fn wf(&self) -> bool {
        self.current.wf()
    }

    /// A well-formed version set has a well-formed layout.
    pub proof fn lemma_wf(&self)
        requires
            self.wf(),
        ensures
            layout_wf(self.levels(), self.width()),
    {
    }

    /// The version set of a database without segments.
    pub fn new(width: usize) -> (set: Self)
        ensures
            set.wf(),
            set.width() == width,
            set.number() == 0,
            set.next_file() == 0,
            forall|l: int| 0 <= l < crate::version::MAX_LEVEL ==> (#[trigger] set.levels()[l]).len() == 0,
    {
        VersionSet { current: Version::new(width), number: 0, next_file: 0 }
    }

    /// The current version.
    pub fn current(&self) -> (version: &Version)
        requires
            self.wf(),
        ensures
            version.wf(),
            version@ == self.levels(),
            version.width() == self.width(),
    {
        &self.current
    }

    /// The number of the current version.
    pub fn version_number(&self) -> (number: u64)
        ensures
            number == self.number(),
    {
        self.number
    }

    /// Whether a version number is left for one more edit.
    pub fn can_edit(&self) -> (left: bool)
        ensures
            left == (self.number() < u64::MAX),
    {
        self.number < u64::MAX
    }

    /// Hands out the name of a new file: a name that was never handed out before.
    /// `None` when the names are used up.
    pub fn next_file_id(&mut self) -> (id: Option<FileId>)
        ensures
            final(self).levels() == old(self).levels(),
            final(self).number() == old(self).number(),
            final(self).width() == old(self).width(),
            final(self).wf() == old(self).wf(),
            match id {
                Some(gen) => gen == old(self).next_file() && final(self).next_file() == gen + 1,
                None => old(self).next_file() == FileId::MAX && final(self).next_file() == old(self).next_file(),
            },
    {
        if self.next_file == FileId::MAX {
            None
        } else {
            let gen = self.next_file;
            self.next_file = gen + 1;
            Some(gen)
        }
    }

    /// Applies the edits in turn and publishes the outcome as the next version.
    /// Returns the files that the edits took out of the layout. The edits are
    /// applied all or none: where one of them cannot be applied, the error of the
    /// first such edit is returned and the current version stays as it was. When
    /// the version numbers are used up nothing is applied either.
    pub fn apply_edits(&mut self, edits: Vec<VersionEdit>) -> (result: Result<
        Vec<FileId>,
        VersionError,
    >)
        requires
            old(self).wf(),
            forall|i: int|
                0 <= i < edits.len() ==> ((#[trigger] edits[i]) matches VersionEdit::Add {
                    table,
                    ..
                } ==> table.wf() && table.width() == old(self).width()),
        ensures
            final(self).wf(),
            final(self).width() == old(self).width(),
            final(self).next_file() == old(self).next_file(),
            old(self).number() == u64::MAX ==> result == Err::<Vec<FileId>, VersionError>(
                VersionError::Exhausted,
            ) && final(self).levels() == old(self).levels() && final(self).number() == old(self).number(),
            old(self).number() < u64::MAX ==> match apply_all(
                old(self).levels(),
                edit_views(edits@),
            ) {
                Ok(levels) => result is Ok && result->Ok_0@ == removed_files(edit_views(edits@))
                    && final(self).levels() == levels && final(self).number() == old(self).number()
                    + 1,
                Err(e) => result == Err::<Vec<FileId>, VersionError>(e) && final(self).levels()
                    == old(self).levels() && final(self).number() == old(self).number(),
            },
    {
        if self.number == u64::MAX {
            return Err(VersionError::Exhausted);
        }
        let ghost all = edit_views(edits@);
        let ghost start = self.levels();
        let ghost width = self.width();
        let backup = self.current.duplicate();
        let mut edits = edits;
        let mut removed: Vec<FileId> = Vec::new();
        let mut failure: Option<VersionError> = None;
        let ghost mut done: int = 0;
        proof {
            assert(all.take(0) =~= Seq::<EditView>::empty());
            assert(removed@ =~= removed_files(all.take(0)));
        }
        while edits.len() > 0 && failure.is_none()
            invariant
                self.current.wf(),
                self.current.width() == width,
                self.number == old(self).number,
                self.next_file == old(self).next_file,
                0 <= done <= all.len(),
                edit_views(edits@) == all.skip(done),
                forall|i: int|
                    0 <= i < edits.len() ==> ((#[trigger] edits[i]) matches VersionEdit::Add {
                        table,
                        ..
                    } ==> table.wf() && table.width() == width),
                failure is None ==> apply_all(start, all.take(done)) == Ok::<
                    Seq<Seq<TableView>>,
                    VersionError,
                >(self.current@) && removed@ == removed_files(all.take(done)),
                backup.wf(),
                backup@ == start,
                backup.width() == width,
                failure matches Some(e) ==> apply_all(start, all.take(done)) == Err::<
                    Seq<Seq<TableView>>,
                    VersionError,
                >(e),
            decreases edits.len() + if failure is None { 1int } else { 0int },
        {
            let ghost rest = edit_views(edits@);
            let ghost pending = edits@;
            proof {
                assert(rest.len() == all.len() - done);
                assert(rest[0] == all[done]);
            }
            let edit = edits.remove(0);
            proof {
                assert(edit@ == all[done]);
                assert forall|i: int| 0 <= i < edits.len() implies ((#[trigger] edits[i]) matches VersionEdit::Add {
                    table,
                    ..
                } ==> table.wf() && table.width() == width) by {
                    assert(edits[i] == pending[i + 1]);
                }
                assert forall|i: int| 0 <= i < edits.len() implies edit_views(edits@)[i]
                    == all.skip(done + 1)[i] by {
                    assert(edits[i] == pending[i + 1]);
                    assert(rest[i + 1] == all[done + i + 1]);
                }
                assert(edit_views(edits@) =~= all.skip(done + 1));
                assert(all.take(done + 1) =~= all.take(done).push(all[done]));
                lemma_apply_all_push(start, all.take(done), all[done]);
                assert(all.take(done + 1).drop_last() =~= all.take(done));
            }
            let gone = match &edit {
                VersionEdit::Remove { gen, .. } => Some(*gen),
                VersionEdit::Add { .. } => None,
            };
            match self.current.apply(edit) {
                Ok(()) => {
                    match gone {
                        Some(gen) => {
                            removed.push(gen);
                        },
                        None => {},
                    }
                },
                Err(e) => {
                    failure = Some(e);
                },
            }
            proof {
                done = done + 1;
            }
        }
        match failure {
            Some(e) => {
                proof {
                    lemma_apply_prefix_err(start, all, done);
                }
                self.current = backup;
                Err(e)
            },
            None => {
                proof {
                    assert(all.take(done) =~= all);
                }
                self.number = self.number + 1;
                Ok(removed)
            },
        }
    }
}

/// Where a prefix of the edits cannot be applied, the whole cannot, for the same
/// reason.
pub proof fn lemma_apply_prefix_err(levels: Seq<Seq<TableView>>, edits: Seq<EditView>, done: int)
    requires
        0 <= done <= edits.len(),
        apply_all(levels, edits.take(done)) is Err,
    ensures
        apply_all(levels, edits) == apply_all(levels, edits.take(done)),
    decreases edits.len(),
{
    let prefix = edits.take(done);
    if done == 0 {
        assert(prefix =~= Seq::<EditView>::empty());
    } else {
        assert(prefix[0] == edits[0]);
        assert(prefix.drop_first() =~= edits.drop_first().take(done - 1));
        match apply_edit(levels, edits[0]) {
            Ok(next) => {
                lemma_apply_prefix_err(next, edits.drop_first(), done - 1);
            },
            Err(_) => {},
        }
    }
}

} // verus!
