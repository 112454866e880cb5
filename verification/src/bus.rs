//! The event multiplexer: an in-process publish/subscribe relay that
//! decouples the transport's lifetime from any one consumer's lifetime.
//!
//! Each subscriber owns a handle and an inbox. Publishing appends the
//! frame to every currently registered inbox, in registration order,
//! within the publish call; a consumer drains its inbox with
//! [`EventMultiplexer::take_inbox`]. After [`EventMultiplexer::unsubscribe`]
//! returns, the handle is gone and no later publish can reach it
//! ([`lemma_unsubscribe_no_delivery`]).

use vstd::prelude::*;

use crate::codec::copy_bytes;

verus! {

/// The mathematical value of one subscription: its handle and the frames
/// delivered to it and not yet drained, oldest first.
#[verifier::ext_equal]
pub struct SubView {
    pub handle: u64,
    pub inbox: Seq<Seq<u8>>,
}

/// The mathematical value of an [`EventMultiplexer`]: the subscriptions in
/// registration order, and the next handle to hand out.
#[verifier::ext_equal]
pub struct MuxView {
    pub subs: Seq<SubView>,
    pub next: u64,
}

/// Whether `h` is a registered handle of `m`.
pub open spec fn mux_has(m: MuxView, h: u64) -> bool {
    exists|i: int| 0 <= i < m.subs.len() && m.subs[i].handle == h
}

/// The position of handle `h` in `m` (meaningful under [`mux_wf`], which
/// makes it unique).
pub open spec fn mux_index(m: MuxView, h: u64) -> int {
    choose|i: int| 0 <= i < m.subs.len() && m.subs[i].handle == h
}

/// The inbox of handle `h`.
pub open spec fn mux_inbox(m: MuxView, h: u64) -> Seq<Seq<u8>> {
    m.subs[mux_index(m, h)].inbox
}

/// Well-formedness: handles are pairwise distinct and all below `next`,
/// so a fresh handle never collides with a live or a dead one.
pub open spec fn mux_wf(m: MuxView) -> bool {
    &&& forall|i: int, j: int|
        0 <= i < j < m.subs.len() ==> m.subs[i].handle != m.subs[j].handle
    &&& forall|i: int| 0 <= i < m.subs.len() ==> m.subs[i].handle < m.next
}

/// What subscribing does: a fresh handle with an empty inbox joins at the
/// end of the registration order.
pub open spec fn subscribe_spec(m: MuxView) -> MuxView {
    MuxView {
        subs: m.subs.push(SubView { handle: m.next, inbox: Seq::empty() }),
        next: (m.next + 1) as u64,
    }
}

/// What publishing `f` does: every registered inbox gains `f` at its end,
/// in registration order; the registration order itself is untouched.
pub open spec fn publish_spec(m: MuxView, f: Seq<u8>) -> MuxView {
    MuxView {
        subs: Seq::new(
            m.subs.len(),
            |i: int| SubView { handle: m.subs[i].handle, inbox: m.subs[i].inbox.push(f) },
        ),
        next: m.next,
    }
}

/// What unsubscribing `h` does: the subscription leaves, with whatever was
/// still in its inbox; everything else is untouched.
pub open spec fn unsubscribe_spec(m: MuxView, h: u64) -> MuxView {
    if mux_has(m, h) {
        MuxView { subs: m.subs.remove(mux_index(m, h)), next: m.next }
    } else {
        m
    }
}

/// What draining `h` does: its inbox empties; everything else is untouched.
pub open spec fn drain_spec(m: MuxView, h: u64) -> MuxView {
    if mux_has(m, h) {
        MuxView {
            subs: m.subs.update(
                mux_index(m, h),
                SubView { handle: h, inbox: Seq::empty() },
            ),
            next: m.next,
        }
    } else {
        m
    }
}

struct Sub {
    handle: u64,
    inbox: Vec<Vec<u8>>,
}

/// The in-process publish/subscribe relay.
pub struct EventMultiplexer {
    subs: Vec<Sub>,
    next_handle: u64,
}

impl View for EventMultiplexer {
    type V = MuxView;

    closed spec fn view(&self) -> MuxView {
        MuxView {
            subs: Seq::new(
                self.subs@.len(),
                |i: int| SubView {
                    handle: self.subs@[i].handle,
                    inbox: self.subs@[i].inbox.deep_view(),
                },
            ),
            next: self.next_handle,
        }
    }
}

impl EventMultiplexer {
    /// A relay with no subscribers.
    pub fn new() -> (m: Self)
        ensures
            m@ == (MuxView { subs: Seq::<SubView>::empty(), next: 0u64 }),
            mux_wf(m@),
    {
        let m = EventMultiplexer { subs: Vec::new(), next_handle: 0 };
        proof {
            assert(m@.subs =~= Seq::<SubView>::empty());
            assert(m@ =~~= MuxView { subs: Seq::<SubView>::empty(), next: 0u64 });
        }
        m
    }

    /// Registers a new subscriber and returns its handle, fresh among all
    /// handles this relay has ever handed out.
    pub fn subscribe(&mut self) -> (h: u64)
        requires
            mux_wf(old(self)@),
            old(self)@.next < u64::MAX,
        ensures
            final(self)@ == subscribe_spec(old(self)@),
            h == old(self)@.next,
            !mux_has(old(self)@, h),
            mux_has(final(self)@, h),
            mux_inbox(final(self)@, h) == Seq::<Seq<u8>>::empty(),
            mux_wf(final(self)@),
    {
        let h = self.next_handle;
        self.subs.push(Sub { handle: h, inbox: Vec::new() });
        self.next_handle = self.next_handle + 1;
        proof {
            let m1 = self@;
            let m0 = old(self)@;
            assert(m1.subs =~~= m0.subs.push(SubView { handle: h, inbox: Seq::empty() }));
            assert(m1 =~~= subscribe_spec(m0));
            let i = m1.subs.len() - 1;
            assert(m1.subs[i].handle == h);
            assert(mux_index(m1, h) == i);
            assert(mux_inbox(m1, h) =~~= Seq::<Seq<u8>>::empty());
        }
        h
    }

    /// Delivers `frame` to every registered subscriber, exactly once each,
    /// in registration order, within this call.
    pub fn publish(&mut self, frame: &Vec<u8>)
        requires
            mux_wf(old(self)@),
        ensures
            final(self)@ == publish_spec(old(self)@, frame@),
            mux_wf(final(self)@),
    {
        let ghost m0 = self@;
        let n = self.subs.len();
        let mut k: usize = 0;
        while k < n
            invariant
                n == self.subs@.len(),
                k <= n,
                self@.next == m0.next,
                self@.subs.len() == m0.subs.len(),
                forall|i: int|
                    0 <= i < k ==> self@.subs[i] == (SubView {
                        handle: m0.subs[i].handle,
                        inbox: m0.subs[i].inbox.push(frame@),
                    }),
                forall|i: int| k <= i < n ==> self@.subs[i] == m0.subs[i],
            decreases n - k,
        {
            let f = copy_bytes(frame);
            let ghost before = self@;
            let sub = &mut self.subs[k];
            sub.inbox.push(f);
            proof {
                assert forall|i: int| 0 <= i < k + 1 implies self@.subs[i] == (SubView {
                    handle: m0.subs[i].handle,
                    inbox: m0.subs[i].inbox.push(frame@),
                }) by {
                    if i == k {
                        assert(self@.subs[i].handle == before.subs[i].handle);
                        assert(self@.subs[i].inbox =~~= before.subs[i].inbox.push(frame@));
                        assert(self@.subs[i] =~~= SubView {
                            handle: m0.subs[i].handle,
                            inbox: m0.subs[i].inbox.push(frame@),
                        });
                    } else {
                        assert(self@.subs[i] =~~= before.subs[i]);
                        assert(before.subs[i] == (SubView {
                            handle: m0.subs[i].handle,
                            inbox: m0.subs[i].inbox.push(frame@),
                        }));
                    }
                }
                assert forall|i: int| k + 1 <= i < n implies self@.subs[i] == m0.subs[i] by {
                    assert(self@.subs[i] =~~= before.subs[i]);
                }
            }
            k = k + 1;
        }
        proof {
            assert(self@ =~~= publish_spec(m0, frame@));
        }
    }

    /// Removes the subscriber with handle `h`, if it is registered. After
    /// this returns no publish can deliver to `h`
    /// ([`lemma_unsubscribe_no_delivery`]).
    pub fn unsubscribe(&mut self, h: u64)
        requires
            mux_wf(old(self)@),
        ensures
            final(self)@ == unsubscribe_spec(old(self)@, h),
            !mux_has(final(self)@, h),
            mux_wf(final(self)@),
    {
        let ghost m0 = self@;
        let n = self.subs.len();
        let mut k: usize = 0;
        while k < n
            invariant
                n == self.subs@.len(),
                k <= n,
                self@ == m0,
                m0 == old(self)@,
                mux_wf(m0),
                forall|i: int| 0 <= i < k ==> m0.subs[i].handle != h,
            decreases n - k,
        {
            if self.subs[k].handle == h {
                self.subs.remove(k);
                proof {
                    assert(m0.subs[k as int].handle == h);
                    assert(mux_has(m0, h));
                    let c = mux_index(m0, h);
                    assert(0 <= c < m0.subs.len() && m0.subs[c].handle == h);
                    assert(c == k as int);
                    assert(self@.subs =~~= m0.subs.remove(k as int));
                    assert(self@ =~~= unsubscribe_spec(m0, h));
                    assert forall|i: int| 0 <= i < self@.subs.len() implies self@.subs[i].handle
                        != h by {
                        if i < k {
                            assert(self@.subs[i] == m0.subs[i]);
                        } else {
                            assert(self@.subs[i] == m0.subs[i + 1]);
                        }
                    }
                }
                return ;
            }
            k = k + 1;
        }
        proof {
            assert(!mux_has(m0, h));
            assert(self@ =~~= unsubscribe_spec(m0, h));
        }
    }

    /// Hands the frames delivered to `h` and not yet drained, oldest
    /// first, to the caller; `h` keeps its registration with an empty
    /// inbox. `None` for a handle that is not registered.
    pub fn take_inbox(&mut self, h: u64) -> (r: Option<Vec<Vec<u8>>>)
        requires
            mux_wf(old(self)@),
        ensures
            final(self)@ == drain_spec(old(self)@, h),
            mux_wf(final(self)@),
            r matches Some(frames) ==> mux_has(old(self)@, h) && frames.deep_view() == mux_inbox(
                old(self)@,
                h,
            ),
            r is None ==> !mux_has(old(self)@, h),
    {
        let ghost m0 = self@;
        let n = self.subs.len();
        let mut k: usize = 0;
        while k < n
            invariant
                n == self.subs@.len(),
                k <= n,
                self@ == m0,
                m0 == old(self)@,
                mux_wf(m0),
                forall|i: int| 0 <= i < k ==> m0.subs[i].handle != h,
            decreases n - k,
        {
            if self.subs[k].handle == h {
                proof {
                    assert(m0.subs[k as int].handle == h);
                    assert(mux_has(m0, h));
                    let c = mux_index(m0, h);
                    assert(0 <= c < m0.subs.len() && m0.subs[c].handle == h);
                    assert(c == k as int);
                }
                let sub = &mut self.subs[k];
                let frames = sub.inbox.split_off(0);
                proof {
                    assert(frames.deep_view() =~~= mux_inbox(m0, h));
                    assert(self@.subs[k as int].inbox =~~= Seq::<Seq<u8>>::empty());
                    assert(self@.subs[k as int] =~~= SubView { handle: h, inbox: Seq::empty() });
                    assert(self@ =~~= drain_spec(m0, h));
                }
                return Option::Some(frames);
            }
            k = k + 1;
        }
        proof {
            assert(!mux_has(m0, h));
            assert(self@ =~~= drain_spec(m0, h));
        }
        Option::None
    }
}

/// Publishing keeps the registration order: every registered handle stays,
/// none appears, and after publishing `f1` and then `f2` a subscriber's
/// inbox holds what it held, then `f1`, then `f2` — first published, first
/// delivered.
pub proof fn lemma_publish_order(m: MuxView, h: u64, f1: Seq<u8>, f2: Seq<u8>)
    requires
        mux_wf(m),
        mux_has(m, h),
    ensures
        mux_has(publish_spec(publish_spec(m, f1), f2), h),
        mux_inbox(publish_spec(publish_spec(m, f1), f2), h) == mux_inbox(m, h).push(f1).push(f2),
{
    let m1 = publish_spec(m, f1);
    let m2 = publish_spec(m1, f2);
    let i = mux_index(m, h);
    assert(0 <= i < m.subs.len() && m.subs[i].handle == h);
    assert(m1.subs[i].handle == h);
    assert(m2.subs[i].handle == h);
    lemma_mux_index_unique(m1, h, i);
    lemma_mux_index_unique(m2, h, i);
    assert(mux_inbox(m2, h) == m.subs[i].inbox.push(f1).push(f2));
}

/// Under [`mux_wf`], any position holding `h` is the position of `h`.
proof fn lemma_mux_index_unique(m: MuxView, h: u64, i: int)
    requires
        0 <= i < m.subs.len(),
        m.subs[i].handle == h,
        forall|a: int, b: int| 0 <= a < b < m.subs.len() ==> m.subs[a].handle != m.subs[b].handle,
    ensures
        mux_index(m, h) == i,
{
    assert(mux_has(m, h));
    let c = mux_index(m, h);
    assert(0 <= c < m.subs.len() && m.subs[c].handle == h);
    if c < i {
        assert(m.subs[c].handle != m.subs[i].handle);
    } else if i < c {
        assert(m.subs[i].handle != m.subs[c].handle);
    }
}

/// After unsubscribing, the handle is gone, and publishing — which never
/// adds a handle — cannot reach it: no publish that starts after
/// `unsubscribe` returns delivers anything to that handle.
pub proof fn lemma_unsubscribe_no_delivery(m: MuxView, h: u64, f: Seq<u8>)
    requires
        mux_wf(m),
    ensures
        !mux_has(unsubscribe_spec(m, h), h),
        !mux_has(publish_spec(unsubscribe_spec(m, h), f), h),
{
    let m1 = unsubscribe_spec(m, h);
    if mux_has(m, h) {
        let c = mux_index(m, h);
        assert(0 <= c < m.subs.len() && m.subs[c].handle == h);
        assert forall|i: int| 0 <= i < m1.subs.len() implies m1.subs[i].handle != h by {
            if i < c {
                assert(m1.subs[i] == m.subs[i]);
            } else {
                assert(m1.subs[i] == m.subs[i + 1]);
            }
        }
    }
    assert forall|i: int| 0 <= i < publish_spec(m1, f).subs.len() implies publish_spec(
        m1,
        f,
    ).subs[i].handle != h by {
        assert(publish_spec(m1, f).subs[i].handle == m1.subs[i].handle);
    }
}

} // verus!
