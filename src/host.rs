//! The runtime's call primitive, through which array methods run user code,
//! and the record of the calls made through it.

use vstd::prelude::*;
use crate::realm::{ObjectData, Realm};
use crate::value::{Error, ObjectId, Val, Value};

verus! {

/// Runs user code. A call may read and change any object of the realm,
/// including the array that a method is working on, or raise an error;
/// the methods that call it assume nothing of what it does.
pub trait Invoke {
    /// Calls `callee` with `receiver` as its `this` and with `args`.
    fn call(
        &mut self,
        realm: &mut Realm,
        callee: &Value,
        receiver: Option<ObjectId>,
        args: &[Value],
    ) -> Result<Value, Error>;
}

/// One call of user code: what was called, on what, with what, the objects
/// before and after, and what came back.
pub struct CallRecord {
    pub callee: Val,
    pub receiver: Option<ObjectId>,
    pub args: Seq<Val>,
    pub before: Seq<ObjectData>,
    pub after: Seq<ObjectData>,
    pub result: Result<Value, Error>,
}

pub open spec fn args_view(args: Seq<Value>) -> Seq<Val> {
    args.map_values(|v: Value| v@)
}

/// The calls in `after` that came after those in `before`, where `after`
/// extends `before`.
pub open spec fn calls_since(before: Seq<CallRecord>, after: Seq<CallRecord>) -> Seq<CallRecord> {
    after.subrange(before.len() as int, after.len() as int)
}

/// `after` is `before` with more calls at the end.
pub open spec fn extends(before: Seq<CallRecord>, after: Seq<CallRecord>) -> bool {
    before.len() <= after.len() && after.subrange(0, before.len() as int) == before
}

/// A host that runs user code through `inner` and keeps a record of every
/// call made through it.
pub struct Host<I> {
    pub inner: I,
    log: Ghost<Seq<CallRecord>>,
}

impl<I: Invoke> Host<I> {
    /// The calls made so far, oldest first.
    pub closed spec fn calls(&self) -> Seq<CallRecord> {
        self.log@
    }

    pub fn new(inner: I) -> (r: Host<I>)
        ensures
            r.calls() == Seq::<CallRecord>::empty(),
    {
        Host { inner, log: Ghost(Seq::empty()) }
    }

    /// Runs a call and records it.
    pub fn call(
        &mut self,
        realm: &mut Realm,
        callee: &Value,
        receiver: Option<ObjectId>,
        args: &[Value],
    ) -> (r: Result<Value, Error>)
        ensures
            final(self).calls() == old(self).calls().push(
                CallRecord {
                    callee: callee@,
                    receiver,
                    args: args_view(args@),
                    before: old(realm)@,
                    after: final(realm)@,
                    result: r,
                },
            ),
    {
        let ghost before = realm@;
        let r = self.inner.call(realm, callee, receiver, args);
        let ghost rec = CallRecord {
            callee: callee@,
            receiver,
            args: args_view(args@),
            before,
            after: realm@,
            result: r,
        };
        self.log = Ghost(self.log@.push(rec));
        r
    }
}

/// Call `k + 1` saw the objects as call `k` left them.
pub open spec fn linked(calls: Seq<CallRecord>, k: int) -> bool {
    calls[k].after == calls[k + 1].before
}

/// The calls ran one after another, from the objects `start` to `end`, with
/// nothing else changing the objects between them.
pub open spec fn chained(calls: Seq<CallRecord>, start: Seq<ObjectData>, end: Seq<ObjectData>) -> bool {
    &&& forall|k: int| 0 <= k < calls.len() - 1 ==> #[trigger] linked(calls, k)
    &&& calls.len() == 0 ==> end == start
    &&& calls.len() > 0 ==> calls[0].before == start && calls.last().after == end
}

/// Every call but possibly the last returned a value.
pub open spec fn all_but_last_ok(calls: Seq<CallRecord>) -> bool {
    forall|k: int| 0 <= k < calls.len() - 1 ==> (#[trigger] calls[k]).result is Ok
}

pub open spec fn all_ok(calls: Seq<CallRecord>) -> bool {
    forall|k: int| 0 <= k < calls.len() ==> (#[trigger] calls[k]).result is Ok
}

pub proof fn lemma_chained_push(calls: Seq<CallRecord>, rec: CallRecord, start: Seq<ObjectData>, mid: Seq<ObjectData>)
    requires
        chained(calls, start, mid),
        all_ok(calls),
        rec.before == mid,
    ensures
        chained(calls.push(rec), start, rec.after),
        all_but_last_ok(calls.push(rec)),
{
    let c2 = calls.push(rec);
    assert forall|k: int| 0 <= k < c2.len() - 1 implies #[trigger] linked(c2, k) by {
        if k < calls.len() - 1 {
            assert(linked(calls, k));
        }
    }
    assert forall|k: int| 0 <= k < c2.len() - 1 implies (#[trigger] c2[k]).result is Ok by {
        assert(c2[k] == calls[k]);
    }
}

pub proof fn lemma_log_grows(base: Seq<CallRecord>, calls: Seq<CallRecord>)
    ensures
        extends(base, base + calls),
        calls_since(base, base + calls) == calls,
{
    assert((base + calls).subrange(0, base.len() as int) =~= base);
    assert((base + calls).subrange(base.len() as int, (base + calls).len() as int) =~= calls);
}

} // verus!
