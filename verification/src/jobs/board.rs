//! Running jobs: which page gets a result, and what the log holds.

use vstd::prelude::*;

use crate::jobs::operation::JobOp;
use crate::text;

verus! {

/// How many lines the log holds.
pub const MAX_LOG_LINES: usize = 2000;

/// The pages of the user interface.
#[derive(Debug, Clone, Copy, PartialEq, Eq, Structural)]
pub enum Page {
    Home,
    Package,
    Online,
    Images,
    Cpio,
    OemInfo,
    Nvme,
    Fastboot,
    Vcom,
    Flash,
}

/// The kinds of images on the page for images.
#[derive(Debug, Clone, Copy, PartialEq, Eq, Structural)]
pub enum ImageKind {
    Erofs,
    Ext4,
    Ramdisk,
    Partition,
}

/// Who gets the result of a job.
#[derive(Debug, Clone, Copy, PartialEq, Eq, Structural)]
pub enum ResultOwner {
    Page(Page),
    Image(ImageKind),
}

/// The result of a job. `payload` is JSON.
#[derive(Debug)]
pub struct JobResult {
    pub ok: bool,
    pub cancelled: bool,
    pub summary: String,
    pub payload: Option<String>,
}

/// How loud a notification is.
#[derive(Debug, Clone, Copy, PartialEq, Eq, Structural)]
pub enum Level {
    Success,
    Warning,
    Error,
}

/// Who gets the result of a job that is started on a page.
pub open spec fn owner_of(op: JobOp, current: Page) -> ResultOwner {
    match op {
        JobOp::OnlineFetch { .. } => ResultOwner::Page(Page::Online),
        JobOp::PackageInspect { .. } => ResultOwner::Page(Page::Package),
        JobOp::PackageUnpack { .. } => ResultOwner::Page(Page::Package),
        JobOp::ErofsUnpack { .. } => ResultOwner::Image(ImageKind::Erofs),
        JobOp::ErofsRepack { .. } => ResultOwner::Image(ImageKind::Erofs),
        JobOp::Ext4Unpack { .. } => ResultOwner::Image(ImageKind::Ext4),
        JobOp::RamdiskUnpack { .. } => ResultOwner::Image(ImageKind::Ramdisk),
        JobOp::RamdiskRepack { .. } => ResultOwner::Image(ImageKind::Ramdisk),
        JobOp::RamdiskPatch { .. } => ResultOwner::Image(ImageKind::Ramdisk),
        JobOp::RamdiskProbe { .. } => ResultOwner::Image(ImageKind::Ramdisk),
        JobOp::PartitionInfo { .. } => ResultOwner::Image(ImageKind::Partition),
        JobOp::FastbootMemoryList => ResultOwner::Page(Page::Fastboot),
        JobOp::FastbootUploadMemory { .. } => ResultOwner::Page(Page::Fastboot),
        JobOp::FastbootCommand { .. } => ResultOwner::Page(Page::Fastboot),
        _ => ResultOwner::Page(current),
    }
}

pub fn result_owner(op: &JobOp, current: Page) -> (owner: ResultOwner)
    ensures
        owner == owner_of(*op, current),
{
    match op {
        JobOp::OnlineFetch { .. } => ResultOwner::Page(Page::Online),
        JobOp::PackageInspect { .. } => ResultOwner::Page(Page::Package),
        JobOp::PackageUnpack { .. } => ResultOwner::Page(Page::Package),
        JobOp::ErofsUnpack { .. } => ResultOwner::Image(ImageKind::Erofs),
        JobOp::ErofsRepack { .. } => ResultOwner::Image(ImageKind::Erofs),
        JobOp::Ext4Unpack { .. } => ResultOwner::Image(ImageKind::Ext4),
        JobOp::RamdiskUnpack { .. } => ResultOwner::Image(ImageKind::Ramdisk),
        JobOp::RamdiskRepack { .. } => ResultOwner::Image(ImageKind::Ramdisk),
        JobOp::RamdiskPatch { .. } => ResultOwner::Image(ImageKind::Ramdisk),
        JobOp::RamdiskProbe { .. } => ResultOwner::Image(ImageKind::Ramdisk),
        JobOp::PartitionInfo { .. } => ResultOwner::Image(ImageKind::Partition),
        JobOp::FastbootMemoryList => ResultOwner::Page(Page::Fastboot),
        JobOp::FastbootUploadMemory { .. } => ResultOwner::Page(Page::Fastboot),
        JobOp::FastbootCommand { .. } => ResultOwner::Page(Page::Fastboot),
        _ => ResultOwner::Page(current),
    }
}

/// How the result of a job is announced.
pub open spec fn level_of(result: JobResult) -> Level {
    if result.cancelled {
        Level::Warning
    } else if result.ok {
        Level::Success
    } else {
        Level::Error
    }
}

pub fn result_level(result: &JobResult) -> (level: Level)
    ensures
        level == level_of(*result),
{
    if result.cancelled {
        Level::Warning
    } else if result.ok {
        Level::Success
    } else {
        Level::Error
    }
}

/// How an outcome is announced.
pub fn outcome_level(ok: bool) -> (level: Level)
    ensures
        level == if ok {
            Level::Success
        } else {
            Level::Error
        },
{
    if ok {
        Level::Success
    } else {
        Level::Error
    }
}

/// Results that wait for the pages that they belong to, one for each owner.
#[derive(Debug)]
pub struct ResultStore {
    pending: Vec<(ResultOwner, JobResult)>,
}

spec fn results_in(pending: Seq<(ResultOwner, JobResult)>, owner: ResultOwner) -> Option<
    JobResult,
>
    decreases pending.len(),
{
    if pending.len() == 0 {
        None
    } else if pending.last().0 == owner {
        Some(pending.last().1)
    } else {
        results_in(pending.drop_last(), owner)
    }
}

proof fn lemma_result_at(pending: Seq<(ResultOwner, JobResult)>, i: int)
    requires
        0 <= i < pending.len(),
        forall|k: int, l: int|
            0 <= k < l < pending.len() ==> (#[trigger] pending[k]).0 != (#[trigger] pending[l]).0,
    ensures
        results_in(pending, pending[i].0) == Some(pending[i].1),
    decreases pending.len(),
{
    let n = pending.len() - 1;
    if i < n {
        assert(pending[i].0 != pending[n].0);
        lemma_result_at(pending.drop_last(), i);
    }
}

proof fn lemma_no_result(pending: Seq<(ResultOwner, JobResult)>, owner: ResultOwner)
    requires
        forall|k: int| 0 <= k < pending.len() ==> (#[trigger] pending[k]).0 != owner,
    ensures
        results_in(pending, owner) is None,
    decreases pending.len(),
{
    if pending.len() > 0 {
        assert(pending[pending.len() - 1].0 != owner);
        lemma_no_result(pending.drop_last(), owner);
    }
}

proof fn lemma_removed(pending: Seq<(ResultOwner, JobResult)>, i: int, owner: ResultOwner)
    requires
        0 <= i < pending.len(),
        pending[i].0 != owner,
    ensures
        results_in(pending.remove(i), owner) == results_in(pending, owner),
    decreases pending.len(),
{
    let rest = pending.remove(i);
    if i == pending.len() - 1 {
        assert(rest =~= pending.drop_last());
    } else {
        assert(rest.last() == pending.last());
        assert(rest.drop_last() =~= pending.drop_last().remove(i));
        lemma_removed(pending.drop_last(), i, owner);
    }
}

impl ResultStore {
    /// The result that waits for an owner.
    pub closed spec fn waiting(&self, owner: ResultOwner) -> Option<JobResult> {
        results_in(self.pending@, owner)
    }

    /// True for every store: no owner has two results.
    pub closed spec fn is_valid(&self) -> bool {
        forall|k: int, l: int|
            0 <= k < l < self.pending@.len() ==> (#[trigger] self.pending@[k]).0 != (
            #[trigger] self.pending@[l]).0
    }

    pub fn new() -> (store: ResultStore)
        ensures
            store.is_valid(),
            forall|owner: ResultOwner| (#[trigger] store.waiting(owner)) is None,
    {
        ResultStore { pending: Vec::new() }
    }

    fn find(&self, owner: ResultOwner) -> (at: Option<usize>)
        requires
            self.is_valid(),
        ensures
            match at {
                Some(i) => i < self.pending@.len() && self.pending@[i as int].0 == owner,
                None => forall|k: int|
                    0 <= k < self.pending@.len() ==> (#[trigger] self.pending@[k]).0 != owner,
            },
    {
        let mut i: usize = 0;
        while i < self.pending.len()
            invariant
                i <= self.pending@.len(),
                forall|k: int| 0 <= k < i ==> (#[trigger] self.pending@[k]).0 != owner,
            decreases self.pending@.len() - i,
        {
            if self.pending[i].0 == owner {
                return Some(i);
            }
            i += 1;
        }
        None
    }

    /// Takes the result of an owner, if one waits.
    pub fn take(&mut self, owner: ResultOwner) -> (result: Option<JobResult>)
        requires
            old(self).is_valid(),
        ensures
            final(self).is_valid(),
            result == old(self).waiting(owner),
            final(self).waiting(owner) is None,
            forall|other: ResultOwner|
                other != owner ==> #[trigger] final(self).waiting(other) == old(self).waiting(
                    other,
                ),
    {
        match self.find(owner) {
            Some(i) => {
                let ghost before = self.pending@;
                proof {
                    lemma_result_at(before, i as int);
                    assert forall|other: ResultOwner| other != owner implies #[trigger] results_in(
                        before.remove(i as int),
                        other,
                    ) == results_in(before, other) by {
                        lemma_removed(before, i as int, other);
                    }
                    let rest = before.remove(i as int);
                    assert forall|k: int| 0 <= k < rest.len() implies (#[trigger] rest[k]).0
                        != owner by {
                        if k < i {
                            assert(before[k].0 != before[i as int].0);
                        } else {
                            assert(before[i as int].0 != before[k + 1].0);
                        }
                    }
                    lemma_no_result(rest, owner);
                }
                let (_, result) = self.pending.remove(i);
                Some(result)
            },
            None => {
                proof {
                    lemma_no_result(self.pending@, owner);
                }
                None
            },
        }
    }

    /// Drops the result of an owner.
    pub fn remove(&mut self, owner: ResultOwner)
        requires
            old(self).is_valid(),
        ensures
            final(self).is_valid(),
            final(self).waiting(owner) is None,
            forall|other: ResultOwner|
                other != owner ==> #[trigger] final(self).waiting(other) == old(self).waiting(
                    other,
                ),
    {
        let dropped = self.take(owner);
    }

    /// Puts a result there for its owner, in place of the one before.
    pub fn insert(&mut self, owner: ResultOwner, result: JobResult)
        requires
            old(self).is_valid(),
        ensures
            final(self).is_valid(),
            final(self).waiting(owner) == Some(result),
            forall|other: ResultOwner|
                other != owner ==> #[trigger] final(self).waiting(other) == old(self).waiting(
                    other,
                ),
    {
        self.remove(owner);
        let ghost cleared = *self;
        let ghost before = self.pending@;
        proof {
            assert forall|k: int| 0 <= k < before.len() implies (#[trigger] before[k]).0
                != owner by {
                lemma_result_at(before, k);
            }
        }
        self.pending.push((owner, result));
        assert(self.pending@.drop_last() =~= before);
        assert forall|other: ResultOwner| other != owner implies #[trigger] self.waiting(other)
            == cleared.waiting(other) by {}
    }
}

/// The last lines of a log.
pub open spec fn last_lines(lines: Seq<Seq<char>>) -> Seq<Seq<char>> {
    if lines.len() > MAX_LOG_LINES {
        lines.skip(lines.len() - MAX_LOG_LINES)
    } else {
        lines
    }
}

/// Adds a line to a log, which holds its last lines only.
pub fn push_log(logs: &mut Vec<String>, line: String)
    ensures
        text::texts(final(logs)@) == last_lines(text::texts(old(logs)@).push(line@)),
{
    let ghost all = text::texts(logs@).push(line@);
    logs.push(line);
    assert(text::texts(logs@) =~= all);
    while logs.len() > MAX_LOG_LINES
        invariant
            logs@.len() <= all.len(),
            logs@.len() >= MAX_LOG_LINES || logs@.len() == all.len(),
            text::texts(logs@) == all.skip(all.len() - logs@.len()),
        decreases logs@.len(),
    {
        let ghost before = logs@;
        let oldest = logs.remove(0);
        assert(text::texts(logs@) =~= text::texts(before).skip(1));
        assert(text::texts(logs@) =~= all.skip(all.len() - logs@.len()));
    }
    assert(all.skip(0) =~= all);
}

/// Whether a job runs, who gets its result, what results wait, and the log.
#[derive(Debug)]
pub struct JobBoard {
    pub running: bool,
    pub owner: ResultOwner,
    pub logs: Vec<String>,
    pub results: ResultStore,
}

impl JobBoard {
    pub fn new() -> (board: JobBoard)
        ensures
            !board.running,
            board.owner == ResultOwner::Page(Page::Home),
            board.logs@.len() == 0,
            board.results.is_valid(),
            forall|owner: ResultOwner| (#[trigger] board.results.waiting(owner)) is None,
    {
        JobBoard {
            running: false,
            owner: ResultOwner::Page(Page::Home),
            logs: Vec::new(),
            results: ResultStore::new(),
        }
    }

    pub fn job_running(&self) -> (running: bool)
        ensures
            running == self.running,
    {
        self.running
    }

    /// Notes that a job was started, or why it was not. Only one job runs at a
    /// time: while one does, nothing changes.
    pub fn start_job(
        &mut self,
        op: &JobOp,
        current: Page,
        started: Result<(), String>,
        log: String,
    ) -> (running: bool)
        requires
            old(self).results.is_valid(),
        ensures
            final(self).results.is_valid(),
            running == (!old(self).running && started is Ok),
            old(self).running ==> *final(self) == *old(self),
            !old(self).running ==> {
                let owner = owner_of(*op, current);
                &&& final(self).running == (started is Ok)
                &&& text::texts(final(self).logs@) == last_lines(
                    text::texts(old(self).logs@).push(log@),
                )
                &&& match started {
                    Ok(()) => final(self).owner == owner && final(self).results.waiting(
                        owner,
                    ) is None,
                    Err(message) => {
                        &&& final(self).owner == old(self).owner
                        &&& final(self).results.waiting(owner) == Some(
                            (JobResult {
                                ok: false,
                                cancelled: false,
                                summary: message,
                                payload: None,
                            }),
                        )
                    },
                }
                &&& forall|other: ResultOwner|
                    other != owner ==> #[trigger] final(self).results.waiting(other) == old(
                        self,
                    ).results.waiting(other)
            },
    {
        if self.running {
            return false;
        }
        let owner = result_owner(op, current);
        push_log(&mut self.logs, log);
        match started {
            Ok(()) => {
                self.owner = owner;
                self.running = true;
                self.results.remove(owner);
                true
            },
            Err(message) => {
                self.results.insert(
                    owner,
                    JobResult { ok: false, cancelled: false, summary: message, payload: None },
                );
                false
            },
        }
    }

    /// Takes the result of the running job: it is logged behind its mark, and
    /// waits for its owner.
    pub fn finish_job(&mut self, mark: &str, result: JobResult)
        requires
            old(self).results.is_valid(),
        ensures
            final(self).results.is_valid(),
            !final(self).running,
            final(self).owner == old(self).owner,
            text::texts(final(self).logs@) == last_lines(
                text::texts(old(self).logs@).push(mark@ + " "@ + result.summary@),
            ),
            final(self).results.waiting(old(self).owner) == Some(result),
            forall|other: ResultOwner|
                other != old(self).owner ==> #[trigger] final(self).results.waiting(other) == old(
                    self,
                ).results.waiting(other),
    {
        let mut line: Vec<char> = text::chars_of(mark);
        text::append_text(&mut line, " ");
        text::append_text(&mut line, result.summary.as_str());
        push_log(&mut self.logs, text::string_of(line.as_slice()));
        self.results.insert(self.owner, result);
        self.running = false;
    }

    /// Takes the result that waits for a page.
    pub fn take_result(&mut self, page: Page) -> (result: Option<JobResult>)
        requires
            old(self).results.is_valid(),
        ensures
            final(self).results.is_valid(),
            result == old(self).results.waiting(ResultOwner::Page(page)),
            final(self).results.waiting(ResultOwner::Page(page)) is None,
            forall|other: ResultOwner|
                other != ResultOwner::Page(page) ==> #[trigger] final(self).results.waiting(other)
                    == old(self).results.waiting(other),
            final(self).running == old(self).running,
            final(self).owner == old(self).owner,
            final(self).logs == old(self).logs,
    {
        self.results.take(ResultOwner::Page(page))
    }

    /// Takes the result that waits for a kind of images.
    pub fn take_image_result(&mut self, kind: ImageKind) -> (result: Option<JobResult>)
        requires
            old(self).results.is_valid(),
        ensures
            final(self).results.is_valid(),
            result == old(self).results.waiting(ResultOwner::Image(kind)),
            final(self).results.waiting(ResultOwner::Image(kind)) is None,
            forall|other: ResultOwner|
                other != ResultOwner::Image(kind) ==> #[trigger] final(self).results.waiting(other)
                    == old(self).results.waiting(other),
            final(self).running == old(self).running,
            final(self).owner == old(self).owner,
            final(self).logs == old(self).logs,
    {
        self.results.take(ResultOwner::Image(kind))
    }

    /// Tells whether the page that is shown waits for the running job.
    pub fn is_busy(&self, current: Page) -> (busy: bool)
        ensures
            busy == (self.running && match self.owner {
                ResultOwner::Page(owner) => owner == current,
                ResultOwner::Image(_) => current == Page::Images,
            }),
    {
        self.running && match self.owner {
            ResultOwner::Page(owner) => owner == current,
            ResultOwner::Image(_) => current == Page::Images,
        }
    }
}

/// The result of a job goes to the page for what the job is about: images of every
/// kind to that of their kind, packages, downloads and device memory to theirs, and
/// all others to the page that was shown.
pub proof fn law_results_go_to_their_page(op: JobOp, current: Page)
    ensures
        match op {
            JobOp::OnlineFetch { .. } => owner_of(op, current) == ResultOwner::Page(Page::Online),
            JobOp::PackageInspect { .. } | JobOp::PackageUnpack { .. } => owner_of(op, current)
                == ResultOwner::Page(Page::Package),
            JobOp::ErofsUnpack { .. } | JobOp::ErofsRepack { .. } => owner_of(op, current)
                == ResultOwner::Image(ImageKind::Erofs),
            JobOp::Ext4Unpack { .. } => owner_of(op, current) == ResultOwner::Image(
                ImageKind::Ext4,
            ),
            JobOp::RamdiskUnpack { .. }
            | JobOp::RamdiskRepack { .. }
            | JobOp::RamdiskPatch { .. }
            | JobOp::RamdiskProbe { .. } => owner_of(op, current) == ResultOwner::Image(
                ImageKind::Ramdisk,
            ),
            JobOp::PartitionInfo { .. } => owner_of(op, current) == ResultOwner::Image(
                ImageKind::Partition,
            ),
            JobOp::FastbootMemoryList
            | JobOp::FastbootUploadMemory { .. }
            | JobOp::FastbootCommand { .. } => owner_of(op, current) == ResultOwner::Page(
                Page::Fastboot,
            ),
            JobOp::NvmeInspect { .. }
            | JobOp::NvmeEdit { .. }
            | JobOp::OemInfoInspect { .. }
            | JobOp::OemInfoExportImage { .. }
            | JobOp::FastbootStatus
            | JobOp::FastbootReboot
            | JobOp::FastbootFlash { .. }
            | JobOp::FastbootExtract { .. }
            | JobOp::FastbootStorageAnalyse
            | JobOp::VcomStatus
            | JobOp::VcomFlash { .. }
            | JobOp::FlashScriptValidate { .. }
            | JobOp::FlashScriptRun { .. } => owner_of(op, current) == ResultOwner::Page(current),
        },
{
}

/// A job that was cancelled is warned of, whatever else it says; one that went well
/// is a success, and any other an error.
pub proof fn law_results_have_their_level(result: JobResult)
    ensures
        result.cancelled <==> level_of(result) == Level::Warning,
        !result.cancelled && result.ok <==> level_of(result) == Level::Success,
        !result.cancelled && !result.ok <==> level_of(result) == Level::Error,
{
}

/// A log keeps its last 2000 lines: a line that is added is its last one, and the
/// oldest goes only where there would be more.
pub proof fn law_logs_keep_their_last_lines(lines: Seq<Seq<char>>, line: Seq<char>)
    requires
        lines.len() <= 2000,
    ensures
        ({
            let after = last_lines(lines.push(line));
            &&& after.last() == line
            &&& lines.len() < 2000 ==> after.drop_last() == lines
            &&& lines.len() == 2000 ==> after.len() == 2000 && after.drop_last() == lines.skip(1)
        }),
{
    let after = last_lines(lines.push(line));
    if lines.len() < 2000 {
        assert(after.drop_last() =~= lines);
    } else {
        assert(after.drop_last() =~= lines.skip(1));
    }
}

/// What came out well is announced as a success, and else as an error.
pub proof fn law_outcomes_have_their_level(ok: bool, level: Level)
    requires
        call_ensures(outcome_level, (ok,), level),
    ensures
        ok <==> level == Level::Success,
        !ok <==> level == Level::Error,
{
}

} // verus!
