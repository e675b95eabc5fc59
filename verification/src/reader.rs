//! A sequential reader over an ordered queue of byte sources.
//!
//! The reader drains its queue front to back: a read serves bytes from
//! the first source that still has any, a source is dropped from the
//! queue the moment it reports exhaustion, and a source whose read fails
//! stays at the head so that nothing past it is silently skipped. Once
//! every source is exhausted the reader reports end of stream, and keeps
//! doing so. A selector picks between the standard input and named
//! sources.

use vstd::prelude::*;
use vstd::string::StringExecFns;

verus! {

/// The error a byte source hands back when a read on it fails.
#[derive(Debug)]
pub struct SourceReadError {
    pub message: String,
}

/// One blocking-read capability over a stream of bytes.
///
/// `remaining()` is the stream the source can still produce. A read may
/// fail at any time and then leaves the source exactly as it was; a
/// successful read hands back a prefix of the remaining stream, consumes
/// exactly that prefix, and is empty only when the source has reached
/// its end or no bytes were asked for.
pub trait ByteSource: Sized {
    /// The bytes this source can still produce. Sources the verifier
    /// never sees, such as the file handles behind the command line,
    /// may leave the default in place.
    open spec fn remaining(&self) -> Seq<u8> {
        Seq::empty()
    }

    /// Whether the source has reached its end: only in this state may a
    /// read report end of stream by handing back no bytes. A source
    /// whose reads keep failing never reaches it, however few bytes it
    /// holds.
    open spec fn exhausted(&self) -> bool {
        self.remaining().len() == 0
    }

    /// Whether every read of this source is known to succeed. Sources
    /// that can fail leave the default in place.
    open spec fn infallible(&self) -> bool {
        false
    }

    /// Read at most `max` bytes.
    fn read(&mut self, max: usize) -> (r: Result<Vec<u8>, SourceReadError>)
        ensures
            match r {
                Ok(bytes) => {
                    &&& bytes@.len() <= max
                    &&& bytes@.len() <= old(self).remaining().len()
                    &&& bytes@ == old(self).remaining().take(bytes@.len() as int)
                    &&& final(self).remaining() == old(self).remaining().skip(bytes@.len() as int)
                    &&& (max > 0 && old(self).remaining().len() > 0 ==> bytes@.len() > 0)
                    &&& (max > 0 && bytes@.len() == 0 ==> old(self).exhausted())
                },
                Err(_) => *final(self) == *old(self),
            },
            old(self).infallible() ==> r is Ok,
    ;
}

/// A byte source held in memory: an in-memory buffer, or a source whose
/// every read fails.
pub enum Source {
    /// Produces the buffered bytes, front first.
    Buffer(Vec<u8>),
    /// Fails every read; stands in for a source whose reads keep failing.
    Failing,
}

impl ByteSource for Source {
    open spec fn remaining(&self) -> Seq<u8> {
        match self {
            Source::Buffer(data) => data@,
            Source::Failing => Seq::empty(),
        }
    }

    open spec fn exhausted(&self) -> bool {
        match self {
            Source::Buffer(data) => data@.len() == 0,
            Source::Failing => false,
        }
    }

    open spec fn infallible(&self) -> bool {
        match self {
            Source::Buffer(_) => true,
            Source::Failing => false,
        }
    }

    fn read(&mut self, max: usize) -> (r: Result<Vec<u8>, SourceReadError>)
        ensures
            (*old(self)) is Buffer ==> r is Ok,
            (*old(self)) is Failing ==> r is Err,
    {
        let mut taken = Source::Failing;
        core::mem::swap(self, &mut taken);
        match taken {
            Source::Failing => Err(
                SourceReadError { message: String::from_str("read from a failing source") },
            ),
            Source::Buffer(data) => {
                let n = if max < data.len() {
                    max
                } else {
                    data.len()
                };
                let mut bytes: Vec<u8> = Vec::new();
                let mut i: usize = 0;
                while i < n
                    invariant
                        n <= data.len(),
                        0 <= i <= n,
                        bytes@ =~= data@.subrange(0, i as int),
                    decreases n - i,
                {
                    bytes.push(data[i]);
                    i = i + 1;
                }
                let mut rest: Vec<u8> = Vec::new();
                let mut j: usize = n;
                while j < data.len()
                    invariant
                        n <= j <= data.len(),
                        rest@ =~= data@.subrange(n as int, j as int),
                    decreases data.len() - j,
                {
                    rest.push(data[j]);
                    j = j + 1;
                }
                proof {
                    assert(bytes@ =~= data@.take(bytes@.len() as int));
                    assert(rest@ =~= data@.skip(bytes@.len() as int));
                }
                *self = Source::Buffer(rest);
                Ok(bytes)
            },
        }
    }
}

/// A reader that drains an ordered queue of byte sources front to back.
///
/// `sources()` is the queue itself; the view is the sequence of the
/// queued sources' remaining streams, in queue order; `stream()` is
/// their concatenation, the bytes the reader can still produce.
pub struct MultiSourceReader<S: ByteSource> {
    queue: Vec<S>,
}

impl<S: ByteSource> View for MultiSourceReader<S> {
    type V = Seq<Seq<u8>>;

    open spec fn view(&self) -> Seq<Seq<u8>> {
        self.sources().map_values(|s: S| s.remaining())
    }
}

impl<S: ByteSource> MultiSourceReader<S> {
    /// The queued sources, in order.
    pub closed spec fn sources(&self) -> Seq<S> {
        self.queue@
    }

    /// The bytes the reader can still produce, over all queued sources.
    pub open spec fn stream(&self) -> Seq<u8> {
        self@.flatten()
    }

    /// A reader over the given sources, to be drained in order.
    /// Ownership of every source transfers to the reader.
    pub fn new(sources: Vec<S>) -> (reader: Self)
        ensures
            reader.sources() == sources@,
    {
        MultiSourceReader { queue: sources }
    }

    /// How many sources are still queued.
    pub fn pending_sources(&self) -> (n: usize)
        ensures
            n == self@.len(),
    {
        self.queue.len()
    }

    /// Read at most `max` bytes from the first source that still has any.
    ///
    /// A successful read hands back a prefix of `stream()` and consumes
    /// exactly that prefix; it is empty only when every source has
    /// reported exhaustion (then the queue is empty and stays so) or
    /// `max == 0` (then nothing changes). A single call never spans two
    /// sources. A failed read consumes nothing: only sources that
    /// reported exhaustion on the way to the failing one leave the
    /// queue, and the failing source itself stays at the head,
    /// untouched. A reader over sources that cannot fail never fails.
    pub fn read(&mut self, max: usize) -> (r: Result<Vec<u8>, SourceReadError>)
        ensures
            match r {
                Ok(bytes) => {
                    &&& bytes@.len() <= max
                    &&& bytes@ == old(self).stream().take(bytes@.len() as int)
                    &&& final(self).stream() == old(self).stream().skip(bytes@.len() as int)
                    &&& (max > 0 ==> ((bytes@.len() == 0) <==> old(self).stream().len() == 0))
                    &&& (max > 0 && bytes@.len() == 0 ==> final(self)@.len() == 0 && (forall|
                        i: int,
                    |
                        0 <= i < old(self).sources().len() ==> old(self).sources()[i].exhausted()))
                    &&& (bytes@.len() > 0 ==> exists|k: int|
                        0 <= k < old(self)@.len() && (forall|i: int|
                            0 <= i < k ==> old(self).sources()[i].exhausted()) && (forall|i: int|
                            0 <= i < k ==> old(self)@[i].len() == 0) && bytes@.len() <= old(
                            self,
                        )@[k].len() && final(self)@ == old(self)@.skip(k).update(
                            0,
                            old(self)@[k].skip(bytes@.len() as int),
                        ))
                },
                Err(_) => {
                    &&& final(self).stream() == old(self).stream()
                    &&& final(self)@.len() > 0
                    &&& exists|k: int|
                        0 <= k <= old(self).sources().len() && (forall|i: int|
                            0 <= i < k ==> old(self).sources()[i].exhausted()) && (forall|i: int|
                            0 <= i < k ==> old(self)@[i].len() == 0) && final(self).sources()
                            == old(self).sources().skip(k) && final(self)@ == old(self)@.skip(k)
                },
            },
            max == 0 ==> r is Ok && final(self).sources() == old(self).sources(),
            old(self)@.len() == 0 ==> r is Ok && final(self).sources() == old(self).sources(),
            (forall|i: int|
                0 <= i < old(self).sources().len() ==> old(self).sources()[i].infallible())
                ==> r is Ok,
    {
        if max == 0 {
            let bytes: Vec<u8> = Vec::new();
            proof {
                assert(bytes@ =~= self.stream().take(0));
                assert(self.stream().skip(0) =~= self.stream());
            }
            return Ok(bytes);
        }
        let ghost origs: Seq<S> = self.sources();
        let ghost orig: Seq<Seq<u8>> = self@;
        let ghost mut dropped: int = 0;
        loop
            invariant
                max >= 1,
                0 <= dropped <= origs.len(),
                forall|i: int| 0 <= i < dropped ==> origs[i].exhausted(),
                forall|i: int| 0 <= i < dropped ==> orig[i].len() == 0,
                self.queue@ == origs.skip(dropped),
                self@.flatten() == orig.flatten(),
                origs == old(self).sources(),
                orig == old(self)@,
                orig == origs.map_values(|s: S| s.remaining()),
            decreases self.queue.len(),
        {
            let ghost q0: Seq<Seq<u8>> = self@;
            proof {
                assert(orig.len() == origs.len());
                assert(q0 =~= orig.skip(dropped));
            }
            if self.queue.len() == 0 {
                let bytes: Vec<u8> = Vec::new();
                proof {
                    assert(q0.len() == 0);
                    assert(dropped == origs.len());
                    assert(orig.flatten() =~= Seq::<u8>::empty());
                    assert(bytes@ =~= orig.flatten().take(0));
                    assert(orig.flatten().skip(0) =~= orig.flatten());
                    if orig.len() == 0 {
                        assert(self.sources() =~= origs);
                    }
                }
                return Ok(bytes);
            }
            let mut head = self.queue.remove(0);
            let ghost head_pre = head.remaining();
            proof {
                assert(head == origs[dropped]);
                assert(head_pre == q0[0]);
                assert(self@ =~= q0.drop_first());
                assert(self.queue@ =~= origs.skip(dropped).drop_first());
            }
            let res = head.read(max);
            match res {
                Err(e) => {
                    self.queue.insert(0, head);
                    proof {
                        assert(head == origs[dropped]);
                        assert(self.queue@ =~= origs.skip(dropped));
                        assert(self@ =~= q0);
                        assert(q0.flatten() == orig.flatten());
                        assert(self.sources() == origs.skip(dropped));
                        assert(self@ == orig.skip(dropped));
                        assert(exists|k: int|
                            0 <= k <= origs.len() && (forall|i: int|
                                0 <= i < k ==> origs[i].exhausted()) && (forall|i: int|
                                0 <= i < k ==> orig[i].len() == 0) && self.sources() == origs.skip(
                                k,
                            ) && self@ == orig.skip(k));
                        if forall|i: int| 0 <= i < origs.len() ==> origs[i].infallible() {
                            assert(origs[dropped].infallible());
                            assert(false);
                        }
                    }
                    return Err(e);
                },
                Ok(bytes) => {
                    if bytes.len() > 0 {
                        self.queue.insert(0, head);
                        proof {
                            let n = bytes@.len() as int;
                            let rest = q0.drop_first();
                            assert(self@ =~= seq![head_pre.skip(n)] + rest);
                            assert(q0.flatten() == q0.first() + rest.flatten());
                            assert(self@.flatten() == self@.first() + self@.drop_first().flatten());
                            assert(self@.drop_first() =~= rest);
                            assert(orig.flatten() == head_pre + rest.flatten());
                            assert(bytes@ =~= (head_pre + rest.flatten()).take(n));
                            assert(self@.flatten() =~= (head_pre + rest.flatten()).skip(n));
                            assert(orig.flatten().len() > 0);
                            assert(orig[dropped] == q0[0]);
                            assert(self@ =~= orig.skip(dropped).update(0, orig[dropped].skip(n)));
                            assert(0 <= dropped < orig.len());
                            assert(bytes@.len() <= orig[dropped].len());
                            assert(exists|k: int|
                                0 <= k < orig.len() && (forall|i: int|
                                    0 <= i < k ==> origs[i].exhausted()) && (forall|i: int|
                                    0 <= i < k ==> orig[i].len() == 0) && bytes@.len() <= orig[k].len()
                                    && self@ == orig.skip(k).update(
                                    0,
                                    orig[k].skip(bytes@.len() as int),
                                ));
                        }
                        return Ok(bytes);
                    }
                    proof {
                        assert(origs[dropped].exhausted());
                        assert(head_pre.len() == 0);
                        assert(q0.flatten() == q0.first() + q0.drop_first().flatten());
                        assert(q0.drop_first().flatten() =~= q0.flatten());
                        assert(q0.drop_first() =~= orig.skip(dropped + 1));
                        dropped = dropped + 1;
                    }
                },
            }
        }
    }
}

/// Which stream a list of source identifiers selects: the standard
/// input exactly when none are named, the named sources otherwise.
pub enum SourceChoice {
    StandardInput,
    NamedSources,
}

/// Choose the stream that serves a list of source identifiers.
pub fn select_source(identifiers: &Vec<String>) -> (choice: SourceChoice)
    ensures
        choice is StandardInput <==> identifiers@.len() == 0,
{
    if identifiers.len() == 0 {
        SourceChoice::StandardInput
    } else {
        SourceChoice::NamedSources
    }
}

} // verus!
