use vstd::prelude::*;

use crate::clock::now_millis;
use crate::log::{capture_time, last_upto, sorted, Log, LogLine};

verus! {

/// No identifier occurs twice.
pub open spec fn unique_ids(ids: Seq<Seq<char>>) -> bool {
    forall|i: int, j: int| 0 <= i < ids.len() && 0 <= j < ids.len() && i != j ==> ids[i] != ids[j]
}

/// `b` is `a` with `line` captured at `at` appended to buffer `i`.
pub open spec fn appended(
    a: Seq<Seq<LogLine>>,
    b: Seq<Seq<LogLine>>,
    i: int,
    line: Seq<char>,
    at: i64,
) -> bool {
    &&& 0 <= i < a.len()
    &&& b.len() == a.len()
    &&& forall|j: int| 0 <= j < a.len() && j != i ==> b[j] == a[j]
    &&& b[i].len() == a[i].len() + 1
    &&& b[i].drop_last() == a[i]
    &&& b[i].last().line@ == line
    &&& b[i].last().timestamp == capture_time(a[i], at)
}

#[derive(Debug, PartialEq, Eq)]
pub enum RegistryError {
    /// The source was registered before.
    AlreadyRegistered(String),
}

#[derive(Debug, PartialEq, Eq)]
pub enum IngestError {
    /// An event names a source that was never registered.
    UnknownSource(String),
}

/// What the ingestion side observed next.
#[derive(Debug)]
pub enum Event {
    /// A new line `text` from the source `source`.
    Line { source: String, text: String },
    /// The cancellation signal.
    Interrupt,
}

/// Whether ingestion goes on after an event.
#[derive(Debug, PartialEq, Eq)]
pub enum Flow {
    Continue,
    Stop,
}

/// The registered sources, in registration order, each with its buffer.
#[derive(Debug)]
pub struct Registry {
    ids: Vec<String>,
    logs: Vec<Log>,
}

impl Registry {
    /// Identifiers of the sources in registration order.
    pub closed spec fn ids(&self) -> Seq<Seq<char>> {
        self.ids@.map_values(|s: String| s@)
    }

    /// Buffered lines of each source, in registration order.
    pub closed spec fn buffers(&self) -> Seq<Seq<LogLine>> {
        self.logs@.map_values(|l: Log| l@)
    }

    /// One buffer per source, no source twice, every buffer in capture order.
    pub open spec fn wf(&self) -> bool {
        &&& self.ids().len() == self.buffers().len()
        &&& unique_ids(self.ids())
        &&& forall|i: int| 0 <= i < self.buffers().len() ==> sorted(#[trigger] self.buffers()[i])
    }

    /// A registry without sources.
    pub fn new() -> (r: Registry)
        ensures
            r.wf(),
            r.ids() == Seq::<Seq<char>>::empty(),
            r.buffers() == Seq::<Seq<LogLine>>::empty(),
    {
        let r = Registry { ids: Vec::new(), logs: Vec::new() };
        assert(r.ids() =~= Seq::<Seq<char>>::empty());
        assert(r.buffers() =~= Seq::<Seq<LogLine>>::empty());
        r
    }

    /// Number of registered sources.
    pub fn len(&self) -> (r: usize)
        requires
            self.wf(),
        ensures
            r == self.ids().len(),
    {
        self.ids.len()
    }

    /// Identifier of source `i`.
    pub fn id(&self, i: usize) -> (r: &String)
        requires
            self.wf(),
            i < self.ids().len(),
        ensures
            r@ == self.ids()[i as int],
    {
        &self.ids[i]
    }

    /// Position of the source `id`, if it is registered.
    pub fn position(&self, id: &String) -> (r: Option<usize>)
        requires
            self.wf(),
        ensures
            r is None ==> !self.ids().contains(id@),
            r matches Some(i) ==> i < self.ids().len() && self.ids()[i as int] == id@,
    {
        let mut i: usize = 0;
        while i < self.ids.len()
            invariant
                i <= self.ids@.len(),
                forall|j: int| 0 <= j < i ==> self.ids()[j] != id@,
            decreases self.ids@.len() - i,
        {
            if self.ids[i] == *id {
                return Some(i);
            }
            i = i + 1;
        }
        None
    }

    /// Registers `id` with an empty buffer; fails where it is registered
    /// already.
    pub fn register(&mut self, id: String) -> (r: Result<(), RegistryError>)
        requires
            old(self).wf(),
        ensures
            final(self).wf(),
            old(self).ids().contains(id@) ==> r == Err::<(), RegistryError>(
                RegistryError::AlreadyRegistered(id),
            ) && final(self).ids() == old(self).ids() && final(self).buffers() == old(
                self,
            ).buffers(),
            !old(self).ids().contains(id@) ==> r is Ok && final(self).ids() == old(self).ids().push(
                id@,
            ) && final(self).buffers() == old(self).buffers().push(Seq::<LogLine>::empty()),
    {
        match self.position(&id) {
            Some(_) => Err(RegistryError::AlreadyRegistered(id)),
            None => {
                let ghost old_ids = self.ids();
                let ghost old_bufs = self.buffers();
                self.ids.push(id);
                self.logs.push(Log::new());
                assert(self.ids() =~= old_ids.push(id@));
                assert(self.buffers() =~= old_bufs.push(Seq::<LogLine>::empty()));
                assert(unique_ids(self.ids())) by {
                    assert forall|i: int, j: int|
                        0 <= i < self.ids().len() && 0 <= j < self.ids().len() && i != j implies self.ids()[i]
                        != self.ids()[j] by {
                        if i == old_ids.len() as int {
                            assert(!old_ids.contains(id@));
                            assert(old_ids[j] == self.ids()[j]);
                        } else if j == old_ids.len() as int {
                            assert(old_ids[i] == self.ids()[i]);
                        }
                    }
                }
                Ok(())
            },
        }
    }

    /// Appends `text`, observed at `at`, to the buffer of the source `id`;
    /// fails where `id` was never registered.
    pub fn append(&mut self, id: &String, text: String, at: i64) -> (r: Result<(), IngestError>)
        requires
            old(self).wf(),
        ensures
            final(self).wf(),
            final(self).ids() == old(self).ids(),
            !old(self).ids().contains(id@) ==> r == Err::<(), IngestError>(
                IngestError::UnknownSource(*id),
            ) && final(self).buffers() == old(self).buffers(),
            old(self).ids().contains(id@) ==> r is Ok && appended(
                old(self).buffers(),
                final(self).buffers(),
                old(self).ids().index_of(id@),
                text@,
                at,
            ),
    {
        match self.position(id) {
            None => Err(IngestError::UnknownSource(id.clone())),
            Some(i) => {
                let ghost old_bufs = self.buffers();
                proof {
                    assert(old_bufs[i as int] == self.logs@[i as int]@);
                }
                self.logs[i].add_line_at(text, at);
                proof {
                    assert(old_bufs[i as int] == self.buffers()[i as int].drop_last());
                    assert(self.ids().index_of(id@) == i);
                    assert forall|j: int| 0 <= j < self.buffers().len() implies sorted(
                        #[trigger] self.buffers()[j],
                    ) by {
                        if j != i as int {
                            assert(self.buffers()[j] == old_bufs[j]);
                        }
                    }
                }
                Ok(())
            },
        }
    }

    /// The buffer of source `i`.
    pub fn log(&self, i: usize) -> (r: &Log)
        requires
            self.wf(),
            i < self.ids().len(),
        ensures
            r@ == self.buffers()[i as int],
    {
        &self.logs[i]
    }

    /// Copies of the source identifiers, in registration order.
    pub fn headers(&self) -> (r: Vec<String>)
        requires
            self.wf(),
        ensures
            r@.len() == self.ids().len(),
            forall|i: int| 0 <= i < r@.len() ==> #[trigger] r@[i]@ == self.ids()[i],
    {
        let mut r: Vec<String> = Vec::new();
        let mut i: usize = 0;
        while i < self.ids.len()
            invariant
                i <= self.ids@.len(),
                r@.len() == i,
                forall|j: int| 0 <= j < i ==> #[trigger] r@[j]@ == self.ids()[j],
            decreases self.ids@.len() - i,
        {
            r.push(self.ids[i].clone());
            i = i + 1;
        }
        r
    }

    /// Removes from the buffer of source `i` every line captured at or
    /// before `t` and returns the last one removed.
    pub fn drain_source(&mut self, i: usize, t: i64) -> (r: Option<LogLine>)
        requires
            old(self).wf(),
            i < old(self).ids().len(),
        ensures
            final(self).wf(),
            final(self).ids() == old(self).ids(),
            final(self).buffers() == old(self).buffers().update(
                i as int,
                old(self).buffers()[i as int].skip(
                    last_upto(old(self).buffers()[i as int], t as int) + 1,
                ),
            ),
            last_upto(old(self).buffers()[i as int], t as int) < 0 ==> r is None,
            last_upto(old(self).buffers()[i as int], t as int) >= 0 ==> r == Some(
                old(self).buffers()[i as int][last_upto(old(self).buffers()[i as int], t as int)],
            ),
    {
        let ghost old_bufs = self.buffers();
        proof {
            assert(old_bufs[i as int] == self.logs@[i as int]@);
        }
        let r = self.logs[i].drain_upto(t);
        proof {
            let b = old_bufs[i as int];
            assert(self.buffers() =~= old_bufs.update(
                i as int,
                b.skip(last_upto(b, t as int) + 1),
            ));
            assert forall|j: int| 0 <= j < self.buffers().len() implies sorted(
                #[trigger] self.buffers()[j],
            ) by {
                if j != i as int {
                    assert(self.buffers()[j] == old_bufs[j]);
                }
            }
        }
        r
    }

    /// Acts on one ingestion event observed at `at`: a line is appended to
    /// its source and ingestion goes on; the cancellation signal stops it.
    pub fn ingest_at(&mut self, event: Event, at: i64) -> (r: Result<Flow, IngestError>)
        requires
            old(self).wf(),
        ensures
            final(self).wf(),
            final(self).ids() == old(self).ids(),
            match event {
                Event::Interrupt => {
                    &&& r == Ok::<Flow, IngestError>(Flow::Stop)
                    &&& final(self).buffers() == old(self).buffers()
                },
                Event::Line { source, text } => {
                    &&& !old(self).ids().contains(source@) ==> r == Err::<Flow, IngestError>(
                        IngestError::UnknownSource(source),
                    ) && final(self).buffers() == old(self).buffers()
                    &&& old(self).ids().contains(source@) ==> r == Ok::<Flow, IngestError>(
                        Flow::Continue,
                    ) && appended(
                        old(self).buffers(),
                        final(self).buffers(),
                        old(self).ids().index_of(source@),
                        text@,
                        at,
                    )
                },
            },
    {
        match event {
            Event::Interrupt => Ok(Flow::Stop),
            Event::Line { source, text } => match self.append(&source, text, at) {
                Ok(()) => Ok(Flow::Continue),
                Err(e) => Err(e),
            },
        }
    }

    /// Acts on one ingestion event, stamping a line with the current
    /// wall-clock time.
    pub fn ingest(&mut self, event: Event) -> (r: Result<Flow, IngestError>)
        requires
            old(self).wf(),
        ensures
            final(self).wf(),
            final(self).ids() == old(self).ids(),
            match event {
                Event::Interrupt => {
                    &&& r == Ok::<Flow, IngestError>(Flow::Stop)
                    &&& final(self).buffers() == old(self).buffers()
                },
                Event::Line { source, text } => {
                    &&& !old(self).ids().contains(source@) ==> r == Err::<Flow, IngestError>(
                        IngestError::UnknownSource(source),
                    ) && final(self).buffers() == old(self).buffers()
                    &&& old(self).ids().contains(source@) ==> r == Ok::<Flow, IngestError>(
                        Flow::Continue,
                    ) && exists|at: i64|
                        at >= 0 && appended(
                            old(self).buffers(),
                            final(self).buffers(),
                            old(self).ids().index_of(source@),
                            text@,
                            at,
                        )
                },
            },
    {
        let at = now_millis();
        self.ingest_at(event, at)
    }
}

} // verus!
