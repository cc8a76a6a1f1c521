use vstd::prelude::*;

use crate::error::{translate, translated, AdmissionControlledS3StorageError, GetError};

verus! {

/// Whether every error among the stream's items can come from a remote backend.
pub open spec fn all_remote(items: Seq<Result<Vec<u8>, GetError>>) -> bool {
    forall|i: int| 0 <= i < items.len() && (#[trigger] items[i]) is Err ==> items[i]->Err_0.is_remote()
}

/// What a stream of chunk results drains to: the chunks joined in order, or
/// the translated first error, with the bytes read before it dropped.
pub open spec fn drained(items: Seq<Result<Vec<u8>, GetError>>) -> Result<Seq<u8>, AdmissionControlledS3StorageError>
    decreases items.len(),
{
    if items.len() == 0 {
        Ok(Seq::empty())
    } else {
        match drained(items.drop_last()) {
            Err(e) => Err(e),
            Ok(bytes) => match items.last() {
                Ok(chunk) => Ok(bytes + chunk@),
                Err(e) => Err(translated(e)),
            },
        }
    }
}

/// A buffer's view inside a result.
pub open spec fn bytes_view<E>(r: Result<Vec<u8>, E>) -> Result<Seq<u8>, E> {
    match r {
        Ok(v) => Ok(v@),
        Err(e) => Err(e),
    }
}

/// Accumulates the chunks of one byte stream, pulled one at a time.
pub struct StreamDrainer {
    buf: Vec<u8>,
}

impl StreamDrainer {
    /// The bytes accumulated so far.
    pub closed spec fn buffered(&self) -> Seq<u8> {
        self.buf@
    }

    /// A drainer that has seen no chunk.
    pub fn new() -> (r: StreamDrainer)
        ensures
            r.buffered() == Seq::<u8>::empty(),
    {
        StreamDrainer { buf: Vec::new() }
    }

    /// Takes the next item of the stream. A chunk is appended and `None`
    /// returned; an error discards what was accumulated and comes back translated.
    pub fn accept(&mut self, item: Result<Vec<u8>, GetError>) -> (r: Option<AdmissionControlledS3StorageError>)
        requires
            item is Err ==> item->Err_0.is_remote(),
        ensures
            match item {
                Ok(chunk) => r is None && final(self).buffered() == old(self).buffered() + chunk@,
                Err(e) => r == Some(translated(e)) && final(self).buffered() == Seq::<u8>::empty(),
            },
    {
        match item {
            Ok(chunk) => {
                let mut chunk = chunk;
                self.buf.append(&mut chunk);
                None
            },
            Err(e) => {
                self.buf = Vec::new();
                Some(translate(e))
            },
        }
    }

    /// The accumulated bytes, once the stream has ended.
    pub fn into_bytes(self) -> (r: Vec<u8>)
        ensures
            r@ == self.buffered(),
    {
        self.buf
    }
}

/// Drains a whole stream of chunk results into one buffer. A stream with no
/// chunk is an empty object, not a missing one.
pub fn drain_chunks(items: Vec<Result<Vec<u8>, GetError>>) -> (r: Result<Vec<u8>, AdmissionControlledS3StorageError>)
    requires
        all_remote(items@),
    ensures
        bytes_view(r) == drained(items@),
        items@.len() == 0 ==> (r matches Ok(v) && v@.len() == 0),
{
    let ghost all = items@;
    let mut drainer = StreamDrainer::new();
    for item in it: items
        invariant
            it.seq() == all,
            all_remote(all),
            drained(all.take(it.index() as int)) == Ok::<Seq<u8>, AdmissionControlledS3StorageError>(drainer.buffered()),
    {
        let ghost k = it.index() as int;
        assert(all.take(k + 1).drop_last() == all.take(k));
        assert(all[k] == item);
        match drainer.accept(item) {
            None => {},
            Some(e) => {
                proof {
                    lemma_error_is_final(all, k + 1);
                }
                return Err(e);
            },
        }
    }
    assert(all.take(all.len() as int) == all);
    Ok(drainer.into_bytes())
}

/// Once a prefix of the stream drains to an error, so does the whole stream.
pub proof fn lemma_error_is_final(items: Seq<Result<Vec<u8>, GetError>>, n: int)
    requires
        0 <= n <= items.len(),
        drained(items.take(n)) is Err,
    ensures
        drained(items) == drained(items.take(n)),
    decreases items.len() - n,
{
    if n < items.len() {
        assert(items.take(n + 1).drop_last() == items.take(n));
        lemma_error_is_final(items, n + 1);
    } else {
        assert(items.take(n) == items);
    }
}


/// A stream whose items are all chunks drains without error.
pub proof fn lemma_chunks_drain_ok(items: Seq<Result<Vec<u8>, GetError>>)
    requires
        forall|i: int| 0 <= i < items.len() ==> (#[trigger] items[i]) is Ok,
    ensures
        drained(items) is Ok,
    decreases items.len(),
{
    if items.len() > 0 {
        lemma_chunks_drain_ok(items.drop_last());
    }
}

/// Error fidelity: a stream drains to its first error, translated, whatever
/// follows it; a missing object is reported as missing.
pub proof fn lemma_first_error_surfaces(items: Seq<Result<Vec<u8>, GetError>>, n: int)
    requires
        0 <= n < items.len(),
        forall|i: int| 0 <= i < n ==> (#[trigger] items[i]) is Ok,
        items[n] is Err,
        items[n]->Err_0.is_remote(),
    ensures
        drained(items) == Err::<Seq<u8>, AdmissionControlledS3StorageError>(translated(items[n]->Err_0)),
        items[n]->Err_0 is NoSuchKey ==> drained(items)->Err_0 == AdmissionControlledS3StorageError::NotFound(
            items[n]->Err_0->NoSuchKey_0,
        ),
{
    let head = items.take(n);
    assert forall|i: int| 0 <= i < head.len() implies (#[trigger] head[i]) is Ok by {
        assert(head[i] == items[i]);
    }
    lemma_chunks_drain_ok(head);
    assert(items.take(n + 1).drop_last() == head);
    assert(items.take(n + 1).last() == items[n]);
    lemma_error_is_final(items, n + 1);
}

} // verus!
