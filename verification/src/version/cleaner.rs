//! The cleaner: the queue of the files that the layout holds no longer and that
//! are to be deleted. Deleting is for whoever holds the files; the cleaner keeps
//! count. A file that could not be deleted goes to the back of the queue and is
//! tried again in a later turn, until it has failed as often as the cleaner
//! allows; then it is given up and put on record as leaked.

use vstd::prelude::*;
use crate::fs::FileId;

verus! {

/// The queue of the files that are to be deleted.
pub struct Cleaner {
    queue: Vec<(FileId, usize)>,
    leaked: Vec<FileId>,
    limit: usize,
}

impl Cleaner {
    /// The files that wait to be deleted, each with the number of times that
    /// deleting it has failed; the next one to try first.
    pub closed spec fn waiting(&self) -> Seq<(FileId, usize)> {
        self.queue@
    }

    /// The files that were given up, in the order in which they were.
    pub closed spec fn leaked(&self) -> Seq<FileId> {
        self.leaked@
    }

    /// Number of failed attempts after which a file is given up.
    pub closed spec fn limit(&self) -> usize {
        self.limit
    }

    /// No file in the queue has failed as often as it takes to be given up.
    pub open spec fn wf(&self) -> bool {
        forall|i: int|
            0 <= i < self.waiting().len() ==> (#[trigger] self.waiting()[i]).1 < self.limit()
                || self.waiting()[i].1 == 0
    }

    /// Whether the cleaner has the file in its queue or on record as leaked.
    pub open spec fn holds(&self, file: FileId) -> bool {
        (exists|i: int| 0 <= i < self.waiting().len() && (#[trigger] self.waiting()[i]).0 == file)
            || self.leaked().contains(file)
    }

    /// A cleaner with nothing to do, which gives a file up after `limit` failed
    /// attempts.
    pub fn new(limit: usize) -> (cleaner: Self)
        ensures
            cleaner.wf(),
            cleaner.waiting() == Seq::<(FileId, usize)>::empty(),
            cleaner.leaked() == Seq::<FileId>::empty(),
            cleaner.limit() == limit,
    {
        Cleaner { queue: Vec::new(), leaked: Vec::new(), limit }
    }

    /// Puts a file at the back of the queue.
    pub fn enqueue(&mut self, file: FileId)
        requires
            old(self).wf(),
        ensures
            final(self).wf(),
            final(self).waiting() == old(self).waiting().push((file, 0usize)),
            final(self).leaked() == old(self).leaked(),
            final(self).limit() == old(self).limit(),
    {
        let ghost before = self.queue@;
        self.queue.push((file, 0));
        proof {
            assert forall|i: int| 0 <= i < self.queue@.len() implies (#[trigger] self.queue@[i]).1
                < self.limit || self.queue@[i].1 == 0 by {
                if i < before.len() {
                    assert(self.queue@[i] == old(self).waiting()[i]);
                }
            }
        }
    }

    /// Number of files to try in this turn: every file that waits now, once.
    pub fn turn(&self) -> (n: usize)
        ensures
            n == self.waiting().len(),
    {
        self.queue.len()
    }

    /// The file to delete next, if one waits.
    pub fn next(&self) -> (file: Option<FileId>)
        ensures
            match file {
                Some(f) => self.waiting().len() > 0 && f == self.waiting()[0].0,
                None => self.waiting().len() == 0,
            },
    {
        if self.queue.len() == 0 {
            None
        } else {
            Some(self.queue[0].0)
        }
    }

    /// Takes note of how the attempt to delete the first file of the queue went.
    /// A file that was deleted leaves the queue. A file that was not goes to the
    /// back of the queue, unless it has now failed as often as the cleaner
    /// allows: then it is given up. With an empty queue nothing happens.
    pub fn resolve(&mut self, deleted: bool)
        requires
            old(self).wf(),
        ensures
            final(self).wf(),
            final(self).limit() == old(self).limit(),
            old(self).waiting().len() == 0 ==> final(self).waiting() == old(self).waiting()
                && final(self).leaked() == old(self).leaked(),
            old(self).waiting().len() > 0 && deleted ==> final(self).waiting() == old(self).waiting().drop_first() && final(self).leaked() == old(self).leaked(),
            old(self).waiting().len() > 0 && !deleted && old(self).waiting()[0].1 + 1 < old(self).limit() ==> final(self).waiting() == old(self).waiting().drop_first().push(
                (old(self).waiting()[0].0, (old(self).waiting()[0].1 + 1) as usize),
            ) && final(self).leaked() == old(self).leaked(),
            old(self).waiting().len() > 0 && !deleted && old(self).waiting()[0].1 + 1 >= old(self).limit() ==> final(self).waiting() == old(self).waiting().drop_first() && final(self).leaked() == old(self).leaked().push(old(self).waiting()[0].0),
    {
        if self.queue.len() == 0 {
            return ;
        }
        let ghost before = self.queue@;
        let (file, failures) = self.queue.remove(0);
        proof {
            assert(self.queue@ =~= before.drop_first());
            assert forall|i: int| 0 <= i < self.queue@.len() implies (#[trigger] self.queue@[i]).1
                < self.limit || self.queue@[i].1 == 0 by {
                assert(self.queue@[i] == old(self).waiting()[i + 1]);
            }
        }
        if !deleted {
            if failures < self.limit && failures + 1 < self.limit {
                self.queue.push((file, failures + 1));
            } else {
                self.leaked.push(file);
            }
        }
    }
}

} // verus!
