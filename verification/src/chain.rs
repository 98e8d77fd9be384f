use vstd::prelude::*;

use crate::codec::{
    be16, be32, eq32, lemma_be16, lemma_be32, lemma_lp_at, lp_at, lp_bytes, tag_is, u16_of,
    u32_of, Reader, Writer,
};
use crate::crypto::{is_zero32, zeros32};
use crate::error::Error;
use crate::model::{
    cap_needed, cred_id, event_decode_result, event_encoding, event_id, event_sig_result,
    events_lp, id_body_result, member_add_result, parse_id_body, parse_member_add,
    parse_proposal, proposal_result, Credential, CredentialView, Event, EventView, CAP_SPAWN,
    T_ACCEPT, T_ACCEPT_REVERT, T_CRED_REVOKE, T_MEMBER_ADD, T_PROCEED, T_PROPOSE,
    T_PROPOSE_REVERT,
};

verus! {

/// A channel's signed hash log: its events in the order they were taken
/// in, the forks seen on the way (an event arriving for a parent that
/// already had a child), and, for a log whose older part was archived, the
/// event the archive ends under.
#[derive(Clone)]
pub struct Chain {
    events: Vec<Event>,
    ids: Vec<[u8; 32]>,
    forks: Vec<([u8; 32], [u8; 32])>,
    truncated_tip: Option<[u8; 32]>,
}

pub struct ChainView {
    pub events: Seq<EventView>,
    pub forks: Seq<(Seq<u8>, Seq<u8>)>,
    pub truncated_tip: Option<Seq<u8>>,
}

impl View for Chain {
    type V = ChainView;

    closed spec fn view(&self) -> ChainView {
        ChainView {
            events: self.events@.map_values(|e: Event| e@),
            forks: self.forks@.map_values(|f: ([u8; 32], [u8; 32])| (f.0@, f.1@)),
            truncated_tip: match self.truncated_tip {
                Some(t) => Some(t@),
                None => None,
            },
        }
    }
}

// ---------------------------------------------------------------------------
// The model
// ---------------------------------------------------------------------------

/// The ids of the events, in order.
pub open spec fn ids_of(evs: Seq<EventView>) -> Seq<Seq<u8>> {
    evs.map_values(|e: EventView| event_id(e))
}

pub open spec fn has_id(evs: Seq<EventView>, id: Seq<u8>) -> bool {
    exists|i: int| 0 <= i < evs.len() && event_id(#[trigger] evs[i]) == id
}

/// Some event names `id` as its parent.
pub open spec fn has_child(evs: Seq<EventView>, id: Seq<u8>) -> bool {
    exists|j: int| 0 <= j < evs.len() && (#[trigger] evs[j]).prev == id
}

/// The first event at or after `i` whose parent is `prev`.
pub open spec fn first_child(evs: Seq<EventView>, prev: Seq<u8>, i: int) -> Option<Seq<u8>>
    decreases evs.len() - i,
{
    if i < 0 || i >= evs.len() {
        None
    } else if evs[i].prev == prev {
        Some(event_id(evs[i]))
    } else {
        first_child(evs, prev, i + 1)
    }
}

/// The ids of the first `n` events that no event names as its parent.
pub open spec fn tips_upto(evs: Seq<EventView>, n: int) -> Seq<Seq<u8>>
    decreases n,
{
    if n <= 0 {
        Seq::empty()
    } else if has_child(evs, event_id(evs[n - 1])) {
        tips_upto(evs, n - 1)
    } else {
        tips_upto(evs, n - 1).push(event_id(evs[n - 1]))
    }
}

pub open spec fn tips_of(evs: Seq<EventView>) -> Seq<Seq<u8>> {
    tips_upto(evs, evs.len() as int)
}

/// Every tip of a log is one of its events.
pub proof fn lemma_tips_held(evs: Seq<EventView>, n: int)
    requires
        0 <= n <= evs.len(),
    ensures
        forall|j: int| 0 <= j < tips_upto(evs, n).len() ==> has_id(evs, #[trigger] tips_upto(evs, n)[j]),
    decreases n,
{
    if n > 0 {
        lemma_tips_held(evs, n - 1);
        let t = tips_upto(evs, n - 1);
        assert forall|j: int| 0 <= j < tips_upto(evs, n).len() implies has_id(evs, #[trigger] tips_upto(evs, n)[j]) by {
            if j < t.len() {
                assert(tips_upto(evs, n)[j] == t[j]);
            } else {
                assert(event_id(evs[n - 1]) == tips_upto(evs, n)[j]);
            }
        }
    }
}

pub open spec fn fork_seen(c: ChainView) -> bool {
    c.forks.len() > 0 || tips_of(c.events).len() > 1
}

/// Taking an event into a log: its signature must check; a known event
/// changes nothing; with `strict`, its parent must be the zero id or a known
/// event; with `record`, an event whose parent already has a child is a fork.
pub open spec fn insert_result(c: ChainView, e: EventView, strict: bool, record: bool) -> (
    ChainView,
    Result<Seq<u8>, Error>,
) {
    match event_sig_result(e) {
        Err(x) => (c, Err(x)),
        Ok(_) => {
            let id = event_id(e);
            if has_id(c.events, id) {
                (c, Ok(id))
            } else if strict && !(e.prev == zeros32() || has_id(c.events, e.prev)) {
                (c, Err(Error::PrevNotInChain))
            } else {
                let forks = if record && first_child(c.events, e.prev, 0) is Some {
                    c.forks.push((first_child(c.events, e.prev, 0)->0, id))
                } else {
                    c.forks
                };
                (ChainView { events: c.events.push(e), forks, truncated_tip: c.truncated_tip }, Ok(id))
            }
        },
    }
}

pub open spec fn empty_chain(tip: Option<Seq<u8>>) -> ChainView {
    ChainView { events: Seq::empty(), forks: Seq::empty(), truncated_tip: tip }
}

impl Chain {
    /// The cached ids match the events, every event's signature checks,
    /// and no event occurs twice.
    pub closed spec fn wf(&self) -> bool {
        &&& self.ids@.len() == self.events@.len()
        &&& forall|i: int| 0 <= i < self.ids@.len() ==> (#[trigger] self.ids@[i])@ == event_id(self.events@[i]@)
        &&& forall|i: int| 0 <= i < self.events@.len() ==> event_sig_result(#[trigger] self.events@[i]@) is Ok
        &&& forall|i: int, j: int| 0 <= i < j < self.ids@.len() ==> self.ids@[i]@ != self.ids@[j]@
    }

    pub proof fn lemma_wf(&self)
        requires
            self.wf(),
        ensures
            forall|i: int| 0 <= i < self@.events.len() ==> event_sig_result(#[trigger] self@.events[i]) is Ok,
            forall|i: int, j: int| 0 <= i < j < self@.events.len() ==> event_id(self@.events[i]) != event_id(self@.events[j]),
    {
        assert forall|i: int, j: int| 0 <= i < j < self@.events.len() implies event_id(self@.events[i]) != event_id(self@.events[j]) by {
            assert(self.ids@[i]@ != self.ids@[j]@);
        }
    }

    pub fn new() -> (c: Self)
        ensures
            c.wf(),
            c@ == empty_chain(None),
            replayable(c@),
    {
        let c = Self { events: Vec::new(), ids: Vec::new(), forks: Vec::new(), truncated_tip: None };
        proof {
            assert(c@.events =~= Seq::<EventView>::empty());
            assert(c@.forks =~= Seq::<(Seq<u8>, Seq<u8>)>::empty());
        }
        c
    }

    pub fn len(&self) -> (n: usize)
        ensures
            n == self@.events.len(),
    {
        self.events.len()
    }

    pub fn is_empty(&self) -> (r: bool)
        ensures
            r == (self@.events.len() == 0),
    {
        self.events.len() == 0
    }

    pub fn events(&self) -> (out: &[Event])
        ensures
            out@.map_values(|e: Event| e@) == self@.events,
    {
        self.events.as_slice()
    }

    fn index_of(&self, id: &[u8; 32]) -> (r: Option<usize>)
        requires
            self.wf(),
        ensures
            r is Some <==> has_id(self@.events, id@),
            r matches Some(i) ==> i < self@.events.len() && event_id(self@.events[i as int]) == id@,
    {
        let mut i: usize = 0;
        while i < self.ids.len()
            invariant
                self.wf(),
                i <= self.ids@.len(),
                forall|j: int| 0 <= j < i ==> event_id(self@.events[j]) != id@,
            decreases self.ids@.len() - i,
        {
            if eq32(&self.ids[i], id) {
                proof {
                    assert(self@.events[i as int] == self.events@[i as int]@);
                    assert(event_id(self@.events[i as int]) == id@);
                }
                return Some(i);
            }
            i = i + 1;
        }
        None
    }

    pub fn contains(&self, id: &[u8; 32]) -> (r: bool)
        requires
            self.wf(),
        ensures
            r == has_id(self@.events, id@),
    {
        self.index_of(id).is_some()
    }

    fn has_child_exec(&self, id: &[u8; 32]) -> (r: bool)
        ensures
            r == has_child(self@.events, id@),
    {
        let mut j: usize = 0;
        while j < self.events.len()
            invariant
                j <= self.events@.len(),
                forall|k: int| 0 <= k < j ==> self@.events[k].prev != id@,
            decreases self.events@.len() - j,
        {
            if eq32(&self.events[j].prev, id) {
                proof {
                    assert(self@.events[j as int].prev == id@);
                }
                return true;
            }
            j = j + 1;
        }
        false
    }

    fn first_child_exec(&self, prev: &[u8; 32]) -> (r: Option<[u8; 32]>)
        requires
            self.wf(),
        ensures
            match first_child(self@.events, prev@, 0) {
                Some(x) => r matches Some(k) && k@ == x,
                None => r is None,
            },
    {
        let mut j: usize = 0;
        while j < self.events.len()
            invariant
                self.wf(),
                j <= self.events@.len(),
                first_child(self@.events, prev@, 0) == first_child(self@.events, prev@, j as int),
            decreases self.events@.len() - j,
        {
            if eq32(&self.events[j].prev, prev) {
                return Some(self.ids[j]);
            }
            j = j + 1;
        }
        None
    }

    /// The events no other event names as its parent, in log order.
    pub fn tips(&self) -> (out: Vec<[u8; 32]>)
        requires
            self.wf(),
        ensures
            out@.map_values(|t: [u8; 32]| t@) == tips_of(self@.events),
    {
        let mut out: Vec<[u8; 32]> = Vec::new();
        let mut i: usize = 0;
        while i < self.ids.len()
            invariant
                self.wf(),
                i <= self.ids@.len(),
                out@.map_values(|t: [u8; 32]| t@) == tips_upto(self@.events, i as int),
            decreases self.ids@.len() - i,
        {
            let id = self.ids[i];
            let ghost before = out@;
            if !self.has_child_exec(&id) {
                out.push(id);
                proof {
                    assert(out@.map_values(|t: [u8; 32]| t@) =~= before.map_values(|t: [u8; 32]| t@).push(id@));
                }
            }
            i = i + 1;
        }
        out
    }

    /// The one tip of an unforked, non-empty log.
    pub fn sole_tip(&self) -> (res: Result<[u8; 32], Error>)
        requires
            self.wf(),
        ensures
            match res {
                Ok(t) => tips_of(self@.events).len() == 1 && t@ == tips_of(self@.events)[0],
                Err(e) => (tips_of(self@.events).len() == 0 && e == Error::EmptyChainHasNoTip) || (
                tips_of(self@.events).len() > 1 && e == Error::ForkMoreThanOneTip),
            },
    {
        let tips = self.tips();
        proof {
            assert(tips@.len() == tips_of(self@.events).len());
        }
        if tips.len() == 1 {
            proof {
                assert(tips@.map_values(|t: [u8; 32]| t@)[0] == tips@[0]@);
            }
            Ok(tips[0])
        } else if tips.len() == 0 {
            Err(Error::EmptyChainHasNoTip)
        } else {
            Err(Error::ForkMoreThanOneTip)
        }
    }

    /// A fork was recorded, or the log has more than one tip.
    pub fn fork_detected(&self) -> (r: bool)
        requires
            self.wf(),
        ensures
            r == fork_seen(self@),
    {
        let tips = self.tips();
        proof {
            assert(tips@.len() == tips_of(self@.events).len());
        }
        self.forks.len() > 0 || tips.len() > 1
    }

    pub fn append(&mut self, event: Event) -> (res: Result<[u8; 32], Error>)
        requires
            old(self).wf(),
        ensures
            final(self).wf(),
            (final(self)@, match res { Ok(id) => Ok::<Seq<u8>, Error>(id@), Err(e) => Err(e) })
                == insert_result(old(self)@, event@, true, true),
            replayable(old(self)@) ==> replayable(final(self)@),
    {
        let ghost c = self@;
        let ghost e = event@;
        let res = self.insert(event, true, true);
        proof {
            if replayable(c) && insert_result(c, e, true, true).1 is Ok {
                lemma_insert_keeps_replayable(c, e, true);
            }
        }
        res
    }

    pub fn insert(&mut self, event: Event, strict_prev: bool, record_fork: bool) -> (res: Result<[u8; 32], Error>)
        requires
            old(self).wf(),
        ensures
            final(self).wf(),
            (final(self)@, match res { Ok(id) => Ok::<Seq<u8>, Error>(id@), Err(e) => Err(e) })
                == insert_result(old(self)@, event@, strict_prev, record_fork),
    {
        proof {
            reveal(insert_result);
        }
        event.verify_sig()?;
        let id = event.id();
        if self.contains(&id) {
            return Ok(id);
        }
        let prev_known = is_zero32(&event.prev) || self.contains(&event.prev);
        if strict_prev && !prev_known {
            return Err(Error::PrevNotInChain);
        }
        let ghost old_view = self@;
        if record_fork {
            match self.first_child_exec(&event.prev) {
                Some(kid) => {
                    let ghost before = self.forks@;
                    self.forks.push((kid, id));
                    proof {
                        assert(self.forks@.map_values(|f: ([u8; 32], [u8; 32])| (f.0@, f.1@)) =~= before.map_values(
                            |f: ([u8; 32], [u8; 32])| (f.0@, f.1@),
                        ).push((kid@, id@)));
                    }
                },
                None => {},
            }
        }
        let ghost evs_before = self.events@;
        let ghost ids_before = self.ids@;
        self.ids.push(id);
        self.events.push(event);
        proof {
            assert(self@.events =~= evs_before.map_values(|e: Event| e@).push(event@));
            assert forall|i: int, j: int| 0 <= i < j < self.ids@.len() implies self.ids@[i]@ != self.ids@[j]@ by {
                if j == self.ids@.len() - 1 {
                    assert(self.ids@[i]@ == event_id(old_view.events[i]));
                }
            }
        }
        Ok(id)
    }
}

// ---------------------------------------------------------------------------
// Membership
// ---------------------------------------------------------------------------

/// A credential admitted to the channel, with the capabilities granted to it.
#[derive(Clone, Copy)]
pub struct Member {
    pub id: [u8; 32],
    pub cred: Credential,
    pub caps: u32,
}

pub struct MemberView {
    pub id: Seq<u8>,
    pub cred: CredentialView,
    pub caps: u32,
}

impl View for Member {
    type V = MemberView;

    open spec fn view(&self) -> MemberView {
        MemberView { id: self.id@, cred: self.cred@, caps: self.caps }
    }
}

/// The `member_add` grants among the first `n` events, in log order; a
/// grant beyond the credential's own capabilities is an error.
pub open spec fn member_entries(evs: Seq<EventView>, n: int) -> Result<Seq<MemberView>, Error>
    decreases n,
{
    if n <= 0 {
        Ok(Seq::empty())
    } else {
        match member_entries(evs, n - 1) {
            Err(e) => Err(e),
            Ok(ms) => if evs[n - 1].typ != T_MEMBER_ADD {
                Ok(ms)
            } else {
                match member_add_result(evs[n - 1].body) {
                    Err(e) => Err(e),
                    Ok((c, caps, _token, _gen)) => if caps & !c.caps != 0 {
                        Err(Error::GrantedCapsExceedCredential)
                    } else {
                        Ok(ms.push(MemberView { id: cred_id(c), cred: c, caps }))
                    },
                }
            },
        }
    }
}

pub open spec fn members_of(evs: Seq<EventView>) -> Result<Seq<MemberView>, Error> {
    member_entries(evs, evs.len() as int)
}

/// The latest grant to credential `id` among the first `n` entries.
pub open spec fn member_last(ms: Seq<MemberView>, id: Seq<u8>, n: int) -> Option<MemberView>
    decreases n,
{
    if n <= 0 {
        None
    } else if ms[n - 1].id == id {
        Some(ms[n - 1])
    } else {
        member_last(ms, id, n - 1)
    }
}

pub open spec fn member_of(ms: Seq<MemberView>, id: Seq<u8>) -> Option<MemberView> {
    member_last(ms, id, ms.len() as int)
}

/// The credential ids revoked among the first `n` events, in log order.
pub open spec fn revoked_upto(evs: Seq<EventView>, n: int) -> Result<Seq<Seq<u8>>, Error>
    decreases n,
{
    if n <= 0 {
        Ok(Seq::empty())
    } else {
        match revoked_upto(evs, n - 1) {
            Err(e) => Err(e),
            Ok(rs) => if evs[n - 1].typ != T_CRED_REVOKE {
                Ok(rs)
            } else {
                match id_body_result(evs[n - 1].body) {
                    Err(e) => Err(e),
                    Ok(id) => Ok(rs.push(id)),
                }
            },
        }
    }
}

pub open spec fn revoked_of(evs: Seq<EventView>) -> Result<Seq<Seq<u8>>, Error> {
    revoked_upto(evs, evs.len() as int)
}

/// Whether a log admits an event at time `now`: the signature checks, the
/// signer is not revoked, and either the event is a `member_add` that is a
/// self-join with the joining key or is sponsored by a live member holding
/// `spawn_member`, or the signer is a live member whose grant carries the
/// capability the event type needs.
pub open spec fn screen_result(evs: Seq<EventView>, e: EventView, now: u64) -> Result<(), Error> {
    match event_sig_result(e) {
        Err(x) => Err(x),
        Ok(_) => match members_of(evs) {
            Err(x) => Err(x),
            Ok(ms) => match revoked_of(evs) {
                Err(x) => Err(x),
                Ok(rv) => if rv.contains(e.signer_cred_id) {
                    Err(Error::CredentialRevoked)
                } else if e.typ == T_MEMBER_ADD {
                    match member_add_result(e.body) {
                        Err(x) => Err(x),
                        Ok((cred, caps, _token, _gen)) => if now >= cred.not_after {
                            Err(Error::CredentialExpired)
                        } else if caps & !cred.caps != 0 {
                            Err(Error::GrantedCapsExceedCredential)
                        } else if cred_id(cred) == e.signer_cred_id {
                            if cred.ed25519_pub != e.signer_pub {
                                Err(Error::MemberAddSignerKeyMismatch)
                            } else {
                                Ok(())
                            }
                        } else {
                            match member_of(ms, e.signer_cred_id) {
                                None => Err(Error::SponsorNotAMember),
                                Some(m) => if m.cred.ed25519_pub != e.signer_pub {
                                    Err(Error::SponsorKeyMismatch)
                                } else if now >= m.cred.not_after {
                                    Err(Error::CredentialExpired)
                                } else if m.caps & CAP_SPAWN == 0 {
                                    Err(Error::CapabilityDenied)
                                } else {
                                    Ok(())
                                },
                            }
                        },
                    }
                } else {
                    match member_of(ms, e.signer_cred_id) {
                        None => Err(Error::SignerNotAMember),
                        Some(m) => if m.cred.ed25519_pub != e.signer_pub {
                            Err(Error::SignerKeyMismatch)
                        } else if now >= m.cred.not_after {
                            Err(Error::CredentialExpired)
                        } else if rv.contains(cred_id(m.cred)) {
                            Err(Error::CredentialRevoked)
                        } else {
                            match cap_needed(e.typ) {
                                Some(need) => if m.caps & need != 0 {
                                    Ok(())
                                } else {
                                    Err(Error::CapabilityDenied)
                                },
                                None => Err(Error::UnknownEventType),
                            }
                        },
                    }
                },
            },
        },
    }
}

pub open spec fn members_view(v: Seq<Member>) -> Seq<MemberView> {
    v.map_values(|m: Member| m@)
}

pub open spec fn ids_view(v: Seq<[u8; 32]>) -> Seq<Seq<u8>> {
    v.map_values(|a: [u8; 32]| a@)
}

proof fn lemma_member_entries_err(evs: Seq<EventView>, n: int, m: int)
    requires
        0 <= n <= m,
        member_entries(evs, n) is Err,
    ensures
        member_entries(evs, m) == member_entries(evs, n),
    decreases m - n,
{
    if m > n {
        lemma_member_entries_err(evs, n, m - 1);
    }
}

proof fn lemma_revoked_err(evs: Seq<EventView>, n: int, m: int)
    requires
        0 <= n <= m,
        revoked_upto(evs, n) is Err,
    ensures
        revoked_upto(evs, m) == revoked_upto(evs, n),
    decreases m - n,
{
    if m > n {
        lemma_revoked_err(evs, n, m - 1);
    }
}

/// The latest entry for credential `id`.
pub fn find_member(members: &Vec<Member>, id: &[u8; 32]) -> (r: Option<Member>)
    ensures
        match member_of(members_view(members@), id@) {
            Some(m) => r matches Some(x) && x@ == m,
            None => r is None,
        },
{
    let ghost ms = members_view(members@);
    let mut i: usize = members.len();
    while i > 0
        invariant
            i <= members@.len(),
            ms == members_view(members@),
            member_of(ms, id@) == member_last(ms, id@, i as int),
        decreases i,
    {
        if eq32(&members[i - 1].id, id) {
            return Some(members[i - 1]);
        }
        i = i - 1;
    }
    None
}

/// Whether `id` is among the revoked ids.
pub fn is_revoked(revoked: &Vec<[u8; 32]>, id: &[u8; 32]) -> (r: bool)
    ensures
        r == ids_view(revoked@).contains(id@),
{
    let mut i: usize = 0;
    while i < revoked.len()
        invariant
            i <= revoked@.len(),
            forall|j: int| 0 <= j < i ==> revoked@[j]@ != id@,
        decreases revoked@.len() - i,
    {
        if eq32(&revoked[i], id) {
            proof {
                assert(ids_view(revoked@)[i as int] == id@);
            }
            return true;
        }
        i = i + 1;
    }
    proof {
        if ids_view(revoked@).contains(id@) {
            let j = choose|j: int| 0 <= j < ids_view(revoked@).len() && ids_view(revoked@)[j] == id@;
            assert(revoked@[j]@ == id@);
        }
    }
    false
}

impl Chain {
    /// Every `member_add` grant in the log, in log order. A later grant to
    /// the same credential supersedes an earlier one.
    pub fn members(&self) -> (res: Result<Vec<Member>, Error>)
        ensures
            match res {
                Ok(v) => members_of(self@.events) == Ok::<Seq<MemberView>, Error>(members_view(v@)),
                Err(e) => members_of(self@.events) == Err::<Seq<MemberView>, Error>(e),
            },
    {
        let ghost evs = self@.events;
        let mut out: Vec<Member> = Vec::new();
        let mut i: usize = 0;
        proof {
            assert(members_view(out@) =~= Seq::<MemberView>::empty());
        }
        while i < self.events.len()
            invariant
                evs == self@.events,
                i <= self.events@.len(),
                member_entries(evs, i as int) == Ok::<Seq<MemberView>, Error>(members_view(out@)),
            decreases self.events@.len() - i,
        {
            let event = &self.events[i];
            proof {
                assert(evs[i as int] == event@);
            }
            if event.typ == T_MEMBER_ADD {
                let parsed = parse_member_add(event.body.as_slice());
                match parsed {
                    Err(e) => {
                        proof {
                            lemma_member_entries_err(evs, i + 1, evs.len() as int);
                        }
                        return Err(e);
                    },
                    Ok((cred, caps, _token, _gen)) => {
                        if caps & !cred.caps != 0 {
                            proof {
                                lemma_member_entries_err(evs, i + 1, evs.len() as int);
                            }
                            return Err(Error::GrantedCapsExceedCredential);
                        }
                        let id = cred.id();
                        let ghost before = out@;
                        out.push(Member { id, cred, caps });
                        proof {
                            assert(members_view(out@) =~= members_view(before).push(
                                MemberView { id: cred_id(cred@), cred: cred@, caps },
                            ));
                        }
                    },
                }
            }
            i = i + 1;
        }
        Ok(out)
    }

    /// The revoked credential ids, in log order.
    pub fn revoked(&self) -> (res: Result<Vec<[u8; 32]>, Error>)
        ensures
            match res {
                Ok(v) => revoked_of(self@.events) == Ok::<Seq<Seq<u8>>, Error>(ids_view(v@)),
                Err(e) => revoked_of(self@.events) == Err::<Seq<Seq<u8>>, Error>(e),
            },
    {
        let ghost evs = self@.events;
        let mut out: Vec<[u8; 32]> = Vec::new();
        let mut i: usize = 0;
        proof {
            assert(ids_view(out@) =~= Seq::<Seq<u8>>::empty());
        }
        while i < self.events.len()
            invariant
                evs == self@.events,
                i <= self.events@.len(),
                revoked_upto(evs, i as int) == Ok::<Seq<Seq<u8>>, Error>(ids_view(out@)),
            decreases self.events@.len() - i,
        {
            let event = &self.events[i];
            proof {
                assert(evs[i as int] == event@);
            }
            if event.typ == T_CRED_REVOKE {
                match parse_id_body(event.body.as_slice()) {
                    Err(e) => {
                        proof {
                            lemma_revoked_err(evs, i + 1, evs.len() as int);
                        }
                        return Err(e);
                    },
                    Ok(id) => {
                        let ghost before = out@;
                        out.push(id);
                        proof {
                            assert(ids_view(out@) =~= ids_view(before).push(id@));
                        }
                    },
                }
            }
            i = i + 1;
        }
        Ok(out)
    }

    /// Whether this log admits `event` at time `now`.
    pub fn screen(&self, event: &Event, now: u64) -> (res: Result<(), Error>)
        ensures
            res == screen_result(self@.events, event@, now),
    {
        event.verify_sig()?;
        let members = self.members()?;
        let revoked = self.revoked()?;
        if is_revoked(&revoked, &event.signer_cred_id) {
            return Err(Error::CredentialRevoked);
        }
        if event.typ == T_MEMBER_ADD {
            let (cred, caps, _token, _gen) = parse_member_add(event.body.as_slice())?;
            if now >= cred.not_after {
                return Err(Error::CredentialExpired);
            }
            if caps & !cred.caps != 0 {
                return Err(Error::GrantedCapsExceedCredential);
            }
            if eq32(&cred.id(), &event.signer_cred_id) {
                if !eq32(&cred.ed25519_pub, &event.signer_pub) {
                    return Err(Error::MemberAddSignerKeyMismatch);
                }
                return Ok(());
            }
            let sponsor = match find_member(&members, &event.signer_cred_id) {
                Some(m) => m,
                None => return Err(Error::SponsorNotAMember),
            };
            if !eq32(&sponsor.cred.ed25519_pub, &event.signer_pub) {
                return Err(Error::SponsorKeyMismatch);
            }
            if now >= sponsor.cred.not_after {
                return Err(Error::CredentialExpired);
            }
            if sponsor.caps & CAP_SPAWN == 0 {
                return Err(Error::CapabilityDenied);
            }
            return Ok(());
        }
        let m = match find_member(&members, &event.signer_cred_id) {
            Some(m) => m,
            None => return Err(Error::SignerNotAMember),
        };
        if !eq32(&m.cred.ed25519_pub, &event.signer_pub) {
            return Err(Error::SignerKeyMismatch);
        }
        if now >= m.cred.not_after {
            return Err(Error::CredentialExpired);
        }
        if is_revoked(&revoked, &m.cred.id()) {
            return Err(Error::CredentialRevoked);
        }
        match crate::model::cap_for_event(event.typ) {
            Some(need) => {
                if m.caps & need != 0 {
                    Ok(())
                } else {
                    Err(Error::CapabilityDenied)
                }
            },
            None => Err(Error::UnknownEventType),
        }
    }
}

// ---------------------------------------------------------------------------
// Receipt state
// ---------------------------------------------------------------------------

/// Whether an event is about `proposal`: a propose that names it, or an
/// accept, proceed or revert whose body is its id.
pub open spec fn about_proposal(e: EventView, proposal: Seq<u8>) -> bool {
    if e.typ == T_PROPOSE {
        proposal_result(e.body) matches Ok((pid, _hash)) && pid == proposal
    } else if e.typ == T_ACCEPT || e.typ == T_PROCEED || e.typ == T_PROPOSE_REVERT || e.typ
        == T_ACCEPT_REVERT {
        id_body_result(e.body) == Ok::<Seq<u8>, Error>(proposal)
    } else {
        false
    }
}

/// Which of propose, accept, proceed, propose-revert and accept-revert the
/// first `n` events hold for `proposal`.
pub open spec fn receipt_flags(evs: Seq<EventView>, proposal: Seq<u8>, n: int) -> (
    bool,
    bool,
    bool,
    bool,
    bool,
)
    decreases n,
{
    if n <= 0 {
        (false, false, false, false, false)
    } else {
        let f = receipt_flags(evs, proposal, n - 1);
        let e = evs[n - 1];
        if !about_proposal(e, proposal) {
            f
        } else if e.typ == T_PROPOSE {
            (true, f.1, f.2, f.3, f.4)
        } else if e.typ == T_ACCEPT {
            (f.0, true, f.2, f.3, f.4)
        } else if e.typ == T_PROCEED {
            (f.0, f.1, true, f.3, f.4)
        } else if e.typ == T_PROPOSE_REVERT {
            (f.0, f.1, f.2, true, f.4)
        } else {
            (f.0, f.1, f.2, f.3, true)
        }
    }
}

/// A receipt is reverted once both sides reverted, stuck when only the
/// proposer did, final with all three steps, proposed with the first only.
pub open spec fn receipt_name(f: (bool, bool, bool, bool, bool)) -> Seq<char> {
    if f.3 && f.4 {
        "reverted"@
    } else if f.3 {
        "stuck"@
    } else if f.0 && f.1 && f.2 {
        "final"@
    } else if f.0 {
        "proposed"@
    } else {
        "absent"@
    }
}

pub open spec fn receipt_status(evs: Seq<EventView>, proposal: Seq<u8>) -> Seq<char> {
    receipt_name(receipt_flags(evs, proposal, evs.len() as int))
}

/// Event `e` is a step of type `t` for `proposal`: a propose whose body
/// names the proposal, or another step whose body is the proposal's id.
pub open spec fn step_for(e: EventView, t: u16, proposal: Seq<u8>) -> bool {
    &&& e.typ == t
    &&& if t == T_PROPOSE {
        proposal_result(e.body) matches Ok((pid, _hash)) && pid == proposal
    } else {
        id_body_result(e.body) == Ok::<Seq<u8>, Error>(proposal)
    }
}

/// Some event among the first `n` is a step of type `t` for `proposal`.
pub open spec fn step_within(evs: Seq<EventView>, t: u16, proposal: Seq<u8>, n: int) -> bool {
    exists|i: int| 0 <= i < n && #[trigger] step_for(evs[i], t, proposal)
}

/// The log holds a step of type `t` for `proposal`.
pub open spec fn log_has_step(evs: Seq<EventView>, t: u16, proposal: Seq<u8>) -> bool {
    step_within(evs, t, proposal, evs.len() as int)
}

proof fn lemma_step_within_next(evs: Seq<EventView>, t: u16, proposal: Seq<u8>, n: int)
    requires
        0 < n <= evs.len(),
    ensures
        step_within(evs, t, proposal, n) == (step_within(evs, t, proposal, n - 1) || step_for(evs[n - 1], t, proposal)),
{
    if step_within(evs, t, proposal, n) {
        let i = choose|i: int| 0 <= i < n && #[trigger] step_for(evs[i], t, proposal);
        if i < n - 1 {
            assert(step_within(evs, t, proposal, n - 1));
        }
    }
    if step_within(evs, t, proposal, n - 1) {
        let i = choose|i: int| 0 <= i < n - 1 && #[trigger] step_for(evs[i], t, proposal);
        assert(step_within(evs, t, proposal, n));
    }
}

/// Each flag of the receipt scan says whether the log holds that step.
proof fn lemma_receipt_flags_steps(evs: Seq<EventView>, proposal: Seq<u8>, n: int)
    requires
        0 <= n <= evs.len(),
    ensures
        receipt_flags(evs, proposal, n).0 == step_within(evs, T_PROPOSE, proposal, n),
        receipt_flags(evs, proposal, n).1 == step_within(evs, T_ACCEPT, proposal, n),
        receipt_flags(evs, proposal, n).2 == step_within(evs, T_PROCEED, proposal, n),
        receipt_flags(evs, proposal, n).3 == step_within(evs, T_PROPOSE_REVERT, proposal, n),
        receipt_flags(evs, proposal, n).4 == step_within(evs, T_ACCEPT_REVERT, proposal, n),
    decreases n,
{
    if n > 0 {
        lemma_receipt_flags_steps(evs, proposal, n - 1);
        lemma_step_within_next(evs, T_PROPOSE, proposal, n);
        lemma_step_within_next(evs, T_ACCEPT, proposal, n);
        lemma_step_within_next(evs, T_PROCEED, proposal, n);
        lemma_step_within_next(evs, T_PROPOSE_REVERT, proposal, n);
        lemma_step_within_next(evs, T_ACCEPT_REVERT, proposal, n);
    } else {
        assert(!step_within(evs, T_PROPOSE, proposal, 0));
        assert(!step_within(evs, T_ACCEPT, proposal, 0));
        assert(!step_within(evs, T_PROCEED, proposal, 0));
        assert(!step_within(evs, T_PROPOSE_REVERT, proposal, 0));
        assert(!step_within(evs, T_ACCEPT_REVERT, proposal, 0));
    }
}

/// The state of a receipt, from the steps the log holds for it. A revert
/// by the proposer decides, whatever else the log holds: with a revert by
/// the accepter too the receipt is reverted, else it is stuck, and never
/// final. Without it, a receipt is final when the log holds its propose,
/// accept and proceed, proposed when it holds the propose without both
/// others, and absent without a propose.
pub proof fn lemma_receipt_state_law(evs: Seq<EventView>, proposal: Seq<u8>)
    ensures
        log_has_step(evs, T_PROPOSE_REVERT, proposal) ==> (receipt_status(evs, proposal) == "stuck"@
            || receipt_status(evs, proposal) == "reverted"@),
        log_has_step(evs, T_PROPOSE_REVERT, proposal) && log_has_step(evs, T_ACCEPT_REVERT, proposal)
            ==> receipt_status(evs, proposal) == "reverted"@,
        log_has_step(evs, T_PROPOSE_REVERT, proposal) && !log_has_step(evs, T_ACCEPT_REVERT, proposal)
            ==> receipt_status(evs, proposal) == "stuck"@,
        !log_has_step(evs, T_PROPOSE_REVERT, proposal) && log_has_step(evs, T_PROPOSE, proposal) && log_has_step(
            evs,
            T_ACCEPT,
            proposal,
        ) && log_has_step(evs, T_PROCEED, proposal) ==> receipt_status(evs, proposal) == "final"@,
        !log_has_step(evs, T_PROPOSE_REVERT, proposal) && log_has_step(evs, T_PROPOSE, proposal) && !(log_has_step(
            evs,
            T_ACCEPT,
            proposal,
        ) && log_has_step(evs, T_PROCEED, proposal)) ==> receipt_status(evs, proposal) == "proposed"@,
        !log_has_step(evs, T_PROPOSE_REVERT, proposal) && !log_has_step(evs, T_PROPOSE, proposal)
            ==> receipt_status(evs, proposal) == "absent"@,
{
    lemma_receipt_flags_steps(evs, proposal, evs.len() as int);
}

/// What screening admits. The event's signature checks and its signer's
/// credential is not revoked. A member_add that grants a credential other
/// than its signer's own is admitted only when the signer is a member with
/// the matching key, whose credential is live and whose granted caps include
/// spawning members; a self-grant only under the granted credential's own
/// key. Every granted credential is live and the grant stays within its caps.
/// Any other event is admitted only when its signer is a member with the
/// matching key and a live, unrevoked credential whose granted caps include
/// the one its type needs.
pub proof fn lemma_screen_law(evs: Seq<EventView>, e: EventView, now: u64)
    requires
        screen_result(evs, e, now) is Ok,
    ensures
        event_sig_result(e) is Ok,
        revoked_of(evs) matches Ok(rv) && !rv.contains(e.signer_cred_id),
        (e.typ == T_MEMBER_ADD && (member_add_result(e.body) matches Ok((cred, _caps, _token, _gen)) && cred_id(cred)
            != e.signer_cred_id)) ==> (members_of(evs) matches Ok(ms) && (member_of(ms, e.signer_cred_id) matches Some(m)
            && m.cred.ed25519_pub == e.signer_pub && now < m.cred.not_after && m.caps & CAP_SPAWN != 0)),
        e.typ != T_MEMBER_ADD ==> (members_of(evs) matches Ok(ms) && (member_of(ms, e.signer_cred_id) matches Some(m)
            && m.cred.ed25519_pub == e.signer_pub && now < m.cred.not_after && (cap_needed(e.typ) matches Some(need)
            && m.caps & need != 0))),
        e.typ != T_MEMBER_ADD ==> (members_of(evs) matches Ok(ms) && (member_of(ms, e.signer_cred_id) matches Some(m)
            && (revoked_of(evs) matches Ok(rv) && !rv.contains(cred_id(m.cred))))),
        e.typ == T_MEMBER_ADD ==> (member_add_result(e.body) matches Ok((cred, caps, _token, _gen)) && now
            < cred.not_after && caps & !cred.caps == 0 && (cred_id(cred) == e.signer_cred_id ==> cred.ed25519_pub
            == e.signer_pub)),
        members_of(evs) is Ok,
{
}

impl Chain {
    pub fn receipt_state(&self, proposal: &[u8; 32]) -> (out: &'static str)
        ensures
            out@ == receipt_status(self@.events, proposal@),
    {
        let ghost evs = self@.events;
        let mut propose = false;
        let mut accept = false;
        let mut proceed = false;
        let mut prevert = false;
        let mut arevert = false;
        let mut i: usize = 0;
        while i < self.events.len()
            invariant
                evs == self@.events,
                i <= self.events@.len(),
                receipt_flags(evs, proposal@, i as int) == (propose, accept, proceed, prevert, arevert),
            decreases self.events@.len() - i,
        {
            let event = &self.events[i];
            proof {
                assert(evs[i as int] == event@);
            }
            let typ = event.typ;
            let matches = if typ == T_PROPOSE {
                match parse_proposal(event.body.as_slice()) {
                    Ok((pid, _hash)) => eq32(&pid, proposal),
                    Err(_) => false,
                }
            } else if typ == T_ACCEPT || typ == T_PROCEED || typ == T_PROPOSE_REVERT || typ
                == T_ACCEPT_REVERT {
                match parse_id_body(event.body.as_slice()) {
                    Ok(id) => eq32(&id, proposal),
                    Err(_) => false,
                }
            } else {
                false
            };
            if matches {
                if typ == T_PROPOSE {
                    propose = true;
                } else if typ == T_ACCEPT {
                    accept = true;
                } else if typ == T_PROCEED {
                    proceed = true;
                } else if typ == T_PROPOSE_REVERT {
                    prevert = true;
                } else if typ == T_ACCEPT_REVERT {
                    arevert = true;
                }
            }
            i = i + 1;
        }
        if prevert && arevert {
            "reverted"
        } else if prevert {
            "stuck"
        } else if propose && accept && proceed {
            "final"
        } else if propose {
            "proposed"
        } else {
            "absent"
        }
    }
}

// ---------------------------------------------------------------------------
// Stored form
// ---------------------------------------------------------------------------

/// "WLOG"
pub open spec fn log_tag() -> Seq<u8> {
    seq![87u8, 76u8, 79u8, 71u8]
}

pub open spec fn tip_bytes(t: Option<Seq<u8>>) -> Seq<u8> {
    match t {
        Some(t) => t,
        None => Seq::empty(),
    }
}

/// A stored log: the tag, version 1, a flag telling whether an archived
/// part ends under a tip (then that tip), the event count, and each stored
/// event behind its length. Forks are not stored: loading finds them again.
pub open spec fn chain_encoding(c: ChainView) -> Seq<u8> {
    log_tag() + be16(1) + be16(if c.truncated_tip is Some { 1 } else { 0 }) + tip_bytes(
        c.truncated_tip,
    ) + be32(c.events.len() as u32) + events_lp(c.events)
}

/// Reading one stored event at position `q` and taking it into `c`,
/// recording forks; `strict` asks for a known parent.
#[verifier::opaque]
pub open spec fn replay_step(b: Seq<u8>, q: int, c: ChainView, strict: bool) -> Result<(ChainView, int), Error> {
    match lp_at(b, q) {
        Err(e) => Err(e),
        Ok((item, r)) => match event_decode_result(item) {
            Err(e) => Err(e),
            Ok(ev) => match insert_result(c, ev, strict, true).1 {
                Err(e) => Err(e),
                Ok(_) => Ok((insert_result(c, ev, strict, true).0, r)),
            },
        },
    }
}

/// Reading `n` stored events from position `p` and taking each into the
/// log `c0` in turn.
pub open spec fn replay_at(b: Seq<u8>, p: int, n: nat, c0: ChainView, strict: bool) -> Result<
    (ChainView, int),
    Error,
>
    decreases n,
{
    if n == 0 {
        Ok((c0, p))
    } else {
        match replay_at(b, p, (n - 1) as nat, c0, strict) {
            Err(e) => Err(e),
            Ok((c, q)) => replay_step(b, q, c, strict),
        }
    }
}

/// What loading a stored log gives. A log with an archived part takes its
/// events without asking for known parents.
pub open spec fn chain_decode_result(b: Seq<u8>) -> Result<ChainView, Error> {
    let n = b.len();
    if n < 4 {
        Err(Error::Truncated)
    } else if b.subrange(0, 4) != log_tag() {
        Err(Error::NotAChannelLog)
    } else if n < 6 {
        Err(Error::Truncated)
    } else if u16_of(b.subrange(4, 6)) != 1 {
        Err(Error::BadLogVersion)
    } else if n < 8 {
        Err(Error::Truncated)
    } else {
        let flagged = u16_of(b.subrange(6, 8)) & 1 == 1;
        if flagged && n < 40 {
            Err(Error::Truncated)
        } else {
            let tip = if flagged {
                Some(b.subrange(8, 40))
            } else {
                None
            };
            let p: int = if flagged {
                40
            } else {
                8
            };
            if p + 4 > n {
                Err(Error::Truncated)
            } else {
                match replay_at(b, p + 4, u32_of(b.subrange(p, p + 4)) as nat, empty_chain(tip), !flagged) {
                    Err(e) => Err(e),
                    Ok((c, q)) => if q != n {
                        Err(Error::TrailingBytes)
                    } else {
                        Ok(c)
                    },
                }
            }
        }
    }
}

/// Taking the first `n` events into `c0` one by one, recording forks.
pub open spec fn build_upto(evs: Seq<EventView>, n: int, c0: ChainView, strict: bool) -> Result<
    ChainView,
    Error,
>
    decreases n,
{
    if n <= 0 {
        Ok(c0)
    } else {
        match build_upto(evs, n - 1, c0, strict) {
            Err(e) => Err(e),
            Ok(c) => match insert_result(c, evs[n - 1], strict, true).1 {
                Err(e) => Err(e),
                Ok(_) => Ok(insert_result(c, evs[n - 1], strict, true).0),
            },
        }
    }
}

/// A log that taking its own events in order, from an empty log with the
/// same archive tip, gives back. Such a log is what loading its stored
/// form gives.
pub open spec fn replayable(c: ChainView) -> bool {
    build_upto(c.events, c.events.len() as int, empty_chain(c.truncated_tip), c.truncated_tip is None)
        == Ok::<ChainView, Error>(c)
}

proof fn lemma_replay_err(b: Seq<u8>, p: int, n: nat, m: nat, c0: ChainView, strict: bool)
    requires
        n <= m,
        replay_at(b, p, n, c0, strict) is Err,
    ensures
        replay_at(b, p, m, c0, strict) == replay_at(b, p, n, c0, strict),
    decreases m - n,
{
    if m > n {
        lemma_replay_err(b, p, n, (m - 1) as nat, c0, strict);
    }
}

proof fn lemma_events_lp_take(s: Seq<EventView>, k: int)
    requires
        0 <= k <= s.len(),
    ensures
        events_lp(s.take(k)).len() <= events_lp(s).len(),
        events_lp(s).subrange(0, events_lp(s.take(k)).len() as int) == events_lp(s.take(k)),
    decreases s.len(),
{
    if k == s.len() {
        assert(s.take(k) =~= s);
    } else {
        let d = s.drop_last();
        assert(d.take(k) =~= s.take(k));
        lemma_events_lp_take(d, k);
        assert(events_lp(s) == events_lp(d) + lp_bytes(event_encoding(s.last())));
        assert(events_lp(s).subrange(0, events_lp(d).len() as int) =~= events_lp(d));
        assert(events_lp(s).subrange(0, events_lp(s.take(k)).len() as int) =~= events_lp(d).subrange(
            0,
            events_lp(d.take(k)).len() as int,
        ));
    }
}

#[verifier::spinoff_prover]
#[verifier::rlimit(50)]
proof fn lemma_replay_builds(b: Seq<u8>, p: int, evs: Seq<EventView>, k: int, c0: ChainView, strict: bool)
    requires
        0 <= p,
        0 <= k <= evs.len(),
        p + events_lp(evs).len() <= b.len(),
        b.subrange(p, p + events_lp(evs).len()) == events_lp(evs),
        forall|i: int| 0 <= i < evs.len() ==> event_decode_result(#[trigger] event_encoding(evs[i])) == Ok::<EventView, Error>(evs[i]),
        forall|i: int| 0 <= i < evs.len() ==> (#[trigger] event_encoding(evs[i])).len() <= u32::MAX,
    ensures
        replay_at(b, p, k as nat, c0, strict) == (match build_upto(evs, k, c0, strict) {
            Ok(c) => Ok::<(ChainView, int), Error>((c, p + events_lp(evs.take(k)).len())),
            Err(e) => Err::<(ChainView, int), Error>(e),
        }),
    decreases k,
{
    reveal(replay_step);
    if k == 0 {
        assert(evs.take(0) =~= Seq::<EventView>::empty());
    } else {
        lemma_replay_builds(b, p, evs, k - 1, c0, strict);
        if build_upto(evs, k - 1, c0, strict) is Ok {
            let e = evs[k - 1];
            let item = event_encoding(e);
            let pre = evs.take(k - 1);
            let cur = evs.take(k);
            assert(cur.drop_last() =~= pre);
            assert(cur.last() == e);
            assert(events_lp(cur) == events_lp(pre) + lp_bytes(item));
            lemma_events_lp_take(evs, k);
            lemma_be32(item.len() as u32);
            let q = p + events_lp(pre).len();
            let whole = events_lp(evs);
            assert(b.subrange(q, q + 4 + item.len()) =~= whole.subrange(
                events_lp(pre).len() as int,
                events_lp(cur).len() as int,
            ));
            assert(whole.subrange(events_lp(pre).len() as int, events_lp(cur).len() as int) =~= events_lp(
                cur,
            ).subrange(events_lp(pre).len() as int, events_lp(cur).len() as int));
            assert(events_lp(cur).subrange(events_lp(pre).len() as int, events_lp(cur).len() as int)
                =~= lp_bytes(item));
            lemma_lp_at(b, q, item);
            assert(event_decode_result(event_encoding(evs[k - 1])) == Ok::<EventView, Error>(evs[k - 1]));
        }
    }
}

/// A replayable log loads from its stored form back to itself.
pub proof fn lemma_chain_roundtrip(c: ChainView)
    requires
        replayable(c),
        c.events.len() <= u32::MAX,
        forall|i: int| 0 <= i < c.events.len() ==> crate::model::event_sized(#[trigger] c.events[i])
            && event_encoding(c.events[i]).len() <= u32::MAX,
        c.truncated_tip matches Some(t) ==> t.len() == 32,
    ensures
        chain_decode_result(chain_encoding(c)) == Ok::<ChainView, Error>(c),
{
    lemma_stored_log_replays(c);
}

/// Taking a new event into a replayable log keeps it replayable, whether or
/// not it asks for a known parent: so every log grown by `append` from a
/// new log loads back to itself.
pub proof fn lemma_insert_keeps_replayable(c: ChainView, e: EventView, strict: bool)
    requires
        replayable(c),
        insert_result(c, e, strict, true).1 is Ok,
        strict || c.truncated_tip is Some,
    ensures
        replayable(insert_result(c, e, strict, true).0),
{
    reveal(insert_result);
    let c2 = insert_result(c, e, strict, true).0;
    let s = c.truncated_tip is None;
    if c2.events.len() > c.events.len() {
        assert(c2.events == c.events.push(e));
        lemma_build_prefix(c.events, e, c.events.len() as int, empty_chain(c.truncated_tip), s);
        assert(c2.events[c2.events.len() - 1] == e);
        assert(c2.events.len() - 1 == c.events.len());
    }
}

/// Taking an event in never forgets a recorded fork: the forks before are
/// a prefix of the forks after, so a log with a recorded fork still reports
/// one after any later insert or append (and, by
/// `lemma_truncate_keeps_tip_and_forks`, after truncation).
pub proof fn lemma_insert_keeps_forks(c: ChainView, e: EventView, strict: bool, record: bool)
    ensures
        insert_result(c, e, strict, record).0.forks.len() >= c.forks.len(),
        forall|i: int| 0 <= i < c.forks.len() ==> #[trigger] insert_result(c, e, strict, record).0.forks[i] == c.forks[i],
        c.forks.len() > 0 ==> fork_seen(insert_result(c, e, strict, record).0),
{
    reveal(insert_result);
}

proof fn lemma_build_prefix(evs: Seq<EventView>, e: EventView, n: int, c0: ChainView, strict: bool)
    requires
        0 <= n <= evs.len(),
    ensures
        build_upto(evs.push(e), n, c0, strict) == build_upto(evs, n, c0, strict),
    decreases n,
{
    if n > 0 {
        lemma_build_prefix(evs, e, n - 1, c0, strict);
        assert(evs.push(e)[n - 1] == evs[n - 1]);
    }
}

/// No two events share an id and every signature checks, as in any log that
/// took its events in one by one.
pub open spec fn distinct_signed(evs: Seq<EventView>) -> bool {
    &&& forall|i: int| 0 <= i < evs.len() ==> event_sig_result(#[trigger] evs[i]) is Ok
    &&& forall|i: int, j: int| 0 <= i < j < evs.len() ==> event_id(#[trigger] evs[i]) != event_id(#[trigger] evs[j])
}

/// Two of the events name the same parent.
pub open spec fn has_siblings(evs: Seq<EventView>) -> bool {
    exists|i: int, j: int| 0 <= i < j < evs.len() && (#[trigger] evs[i]).prev == (#[trigger] evs[j]).prev
}

proof fn lemma_first_child(evs: Seq<EventView>, p: Seq<u8>, i: int)
    requires
        0 <= i,
    ensures
        first_child(evs, p, i) is Some <==> exists|k: int| i <= k < evs.len() && (#[trigger] evs[k]).prev == p,
    decreases evs.len() - i,
{
    if i < evs.len() {
        lemma_first_child(evs, p, i + 1);
        if first_child(evs, p, i) is None {
            assert forall|k: int| i <= k < evs.len() implies (#[trigger] evs[k]).prev != p by {
                if k == i {
                } else {
                    assert(i + 1 <= k);
                }
            }
        }
    }
}

/// Taking distinct, signed events into an empty log one by one holds them
/// in order, and records a fork exactly when two of them share a parent.
/// Without asking for known parents it always succeeds.
proof fn lemma_build_distinct(evs: Seq<EventView>, n: int, tip: Option<Seq<u8>>, strict: bool)
    requires
        0 <= n <= evs.len(),
        distinct_signed(evs),
        build_upto(evs, n, empty_chain(tip), strict) is Ok || !strict,
    ensures
        build_upto(evs, n, empty_chain(tip), strict) is Ok,
        build_upto(evs, n, empty_chain(tip), strict)->Ok_0.events == evs.take(n),
        build_upto(evs, n, empty_chain(tip), strict)->Ok_0.truncated_tip == tip,
        build_upto(evs, n, empty_chain(tip), strict)->Ok_0.forks.len() > 0 <==> has_siblings(evs.take(n)),
    decreases n,
{
    reveal(insert_result);
    if n == 0 {
        assert(evs.take(0) =~= Seq::<EventView>::empty());
    } else {
        lemma_build_distinct(evs, n - 1, tip, strict);
        let c = build_upto(evs, n - 1, empty_chain(tip), strict)->Ok_0;
        let e = evs[n - 1];
        let s = evs.take(n - 1);
        let s2 = evs.take(n);
        assert(s2 =~= s.push(e));
        assert(!has_id(c.events, event_id(e))) by {
            if has_id(c.events, event_id(e)) {
                let k = choose|k: int| 0 <= k < c.events.len() && event_id(#[trigger] c.events[k]) == event_id(e);
                assert(c.events[k] == evs[k]);
            }
        }
        lemma_first_child(s, e.prev, 0);
        assert(has_siblings(s2) <==> (has_siblings(s) || exists|k: int| 0 <= k < s.len() && (#[trigger] s[k]).prev
            == e.prev)) by {
            if has_siblings(s2) {
                let (i, j) = choose|i: int, j: int| 0 <= i < j < s2.len() && (#[trigger] s2[i]).prev == (#[trigger] s2[j]).prev;
                assert(s2[i] == s[i]);
                if j < s.len() {
                    assert(s2[j] == s[j]);
                } else {
                    assert(s2[j] == e);
                }
            }
            if has_siblings(s) {
                let (i, j) = choose|i: int, j: int| 0 <= i < j < s.len() && (#[trigger] s[i]).prev == (#[trigger] s[j]).prev;
                assert(s2[i] == s[i] && s2[j] == s[j]);
            }
            if exists|k: int| 0 <= k < s.len() && (#[trigger] s[k]).prev == e.prev {
                let k = choose|k: int| 0 <= k < s.len() && (#[trigger] s[k]).prev == e.prev;
                assert(s2[k] == s[k] && s2[n - 1] == e);
            }
        }
    }
}

/// Loading the stored form of a log replays its own events into an empty
/// log with its archive tip.
#[verifier::spinoff_prover]
#[verifier::rlimit(50)]
proof fn lemma_stored_log_replays(c: ChainView)
    requires
        c.events.len() <= u32::MAX,
        forall|i: int| 0 <= i < c.events.len() ==> crate::model::event_sized(#[trigger] c.events[i])
            && event_encoding(c.events[i]).len() <= u32::MAX,
        c.truncated_tip matches Some(t) ==> t.len() == 32,
    ensures
        chain_decode_result(chain_encoding(c)) == (match build_upto(
            c.events,
            c.events.len() as int,
            empty_chain(c.truncated_tip),
            c.truncated_tip is None,
        ) {
            Ok(d) => Ok::<ChainView, Error>(d),
            Err(e) => Err::<ChainView, Error>(e),
        }),
{
    let enc = chain_encoding(c);
    let flag: u16 = if c.truncated_tip is Some { 1 } else { 0 };
    let p: int = if c.truncated_tip is Some { 40 } else { 8 };
    let el = events_lp(c.events).len() as int;
    lemma_be16(1);
    lemma_be16(flag);
    lemma_be32(c.events.len() as u32);
    assert(enc.len() == p + 4 + el);
    assert(enc.subrange(0, 4) =~= log_tag());
    assert(enc.subrange(4, 6) =~= be16(1));
    assert(enc.subrange(6, 8) =~= be16(flag));
    assert((1u16 & 1 == 1) && (0u16 & 1 != 1)) by (bit_vector);
    if c.truncated_tip is Some {
        assert(enc.subrange(8, 40) =~= c.truncated_tip->0);
    }
    assert(enc.subrange(p, p + 4) =~= be32(c.events.len() as u32));
    assert(enc.subrange(p + 4, p + 4 + el) =~= events_lp(c.events));
    assert forall|i: int| 0 <= i < c.events.len() implies event_decode_result(#[trigger] event_encoding(c.events[i]))
        == Ok::<EventView, Error>(c.events[i]) by {
        crate::model::lemma_event_roundtrip(c.events[i]);
    }
    lemma_replay_builds(enc, p + 4, c.events, c.events.len() as int, empty_chain(c.truncated_tip), c.truncated_tip is None);
    assert(c.events.take(c.events.len() as int) =~= c.events);
}

proof fn lemma_replay_replayable(b: Seq<u8>, p: int, n: nat, tip: Option<Seq<u8>>)
    requires
        replay_at(b, p, n, empty_chain(tip), tip is None) is Ok,
    ensures
        replayable(replay_at(b, p, n, empty_chain(tip), tip is None)->Ok_0.0),
        replay_at(b, p, n, empty_chain(tip), tip is None)->Ok_0.0.truncated_tip == tip,
    decreases n,
{
    reveal(replay_step);
    reveal(insert_result);
    if n == 0 {
        assert(empty_chain(tip).events.len() == 0);
    } else {
        lemma_replay_replayable(b, p, (n - 1) as nat, tip);
        let (c, q) = replay_at(b, p, (n - 1) as nat, empty_chain(tip), tip is None)->Ok_0;
        let (item, r) = lp_at(b, q)->Ok_0;
        let ev = event_decode_result(item)->Ok_0;
        lemma_insert_keeps_replayable(c, ev, tip is None);
    }
}

/// Whatever loads from stored bytes is a replay of its own events.
pub proof fn lemma_loaded_log_replayable(b: Seq<u8>)
    requires
        chain_decode_result(b) is Ok,
    ensures
        replayable(chain_decode_result(b)->Ok_0),
{
    let flagged = u16_of(b.subrange(6, 8)) & 1 == 1;
    let tip = if flagged {
        Some(b.subrange(8, 40))
    } else {
        None
    };
    let p: int = if flagged {
        40
    } else {
        8
    };
    lemma_replay_replayable(b, p + 4, u32_of(b.subrange(p, p + 4)) as nat, tip);
}

/// A log of distinct, signed events that holds an archive tip, or that is a
/// replay of its own events, loads from its stored form with the same events
/// in the same order and the same archive tip, so with the same stored form
/// and the same tips; a
/// replay loads back to itself. Forks are found again from the events: the
/// loaded log sees one exactly when there is more than one tip or two events
/// share a parent.
pub proof fn lemma_log_loads_back(c: ChainView)
    requires
        distinct_signed(c.events),
        c.truncated_tip is Some || replayable(c),
        c.events.len() <= u32::MAX,
        forall|i: int| 0 <= i < c.events.len() ==> crate::model::event_sized(#[trigger] c.events[i])
            && event_encoding(c.events[i]).len() <= u32::MAX,
        c.truncated_tip matches Some(t) ==> t.len() == 32,
    ensures
        chain_decode_result(chain_encoding(c)) is Ok,
        chain_decode_result(chain_encoding(c))->Ok_0.events == c.events,
        chain_decode_result(chain_encoding(c))->Ok_0.truncated_tip == c.truncated_tip,
        chain_encoding(chain_decode_result(chain_encoding(c))->Ok_0) == chain_encoding(c),
        tips_of(chain_decode_result(chain_encoding(c))->Ok_0.events) == tips_of(c.events),
        replayable(chain_decode_result(chain_encoding(c))->Ok_0),
        replayable(c) ==> chain_decode_result(chain_encoding(c)) == Ok::<ChainView, Error>(c),
        fork_seen(chain_decode_result(chain_encoding(c))->Ok_0) <==> (tips_of(c.events).len() > 1 || has_siblings(
            c.events,
        )),
{
    let n = c.events.len() as int;
    lemma_stored_log_replays(c);
    lemma_build_distinct(c.events, n, c.truncated_tip, c.truncated_tip is None);
    assert(c.events.take(n) =~= c.events);
    lemma_loaded_log_replayable(chain_encoding(c));
}

/// Reads one stored event and takes it into the log.
fn take_stored_event(chain: &mut Chain, r: &mut Reader, strict: bool) -> (res: Result<(), Error>)
    requires
        old(chain).wf(),
        0 <= old(r).pos(),
    ensures
        final(chain).wf(),
        final(r).data() == old(r).data(),
        res is Ok ==> old(r).pos() <= final(r).pos(),
        replay_step(old(r).data(), old(r).pos(), old(chain)@, strict) == (match res {
            Ok(_) => Ok::<(ChainView, int), Error>((final(chain)@, final(r).pos())),
            Err(e) => Err::<(ChainView, int), Error>(e),
        }),
{
    proof {
        reveal(replay_step);
    }
    let item = r.lp()?;
    let event = Event::decode(item)?;
    chain.insert(event, strict, true)?;
    Ok(())
}

impl Chain {
    pub fn encode(&self) -> (out: Vec<u8>)
        ensures
            out@ == chain_encoding(self@),
    {
        let mut w = Writer::new();
        w.bytes(&[87u8, 76u8, 79u8, 71u8]);
        w.u16(1);
        w.u16(if self.truncated_tip.is_some() { 1 } else { 0 });
        match &self.truncated_tip {
            Some(tip) => w.arr32(tip),
            None => {},
        }
        w.u32(self.events.len() as u32);
        let ghost head = w@;
        let ghost evs = self@.events;
        let mut i: usize = 0;
        while i < self.events.len()
            invariant
                evs == self@.events,
                i <= self.events@.len(),
                w@ == head + events_lp(evs.subrange(0, i as int)),
            decreases self.events@.len() - i,
        {
            let item = self.events[i].encode();
            w.lp(item.as_slice());
            proof {
                assert(evs[i as int] == self.events@[i as int]@);
                let es = evs.subrange(0, i + 1);
                assert(es.drop_last() =~= evs.subrange(0, i as int));
            }
            i = i + 1;
        }
        proof {
            assert(evs.subrange(0, i as int) =~= evs);
            assert([87u8, 76u8, 79u8, 71u8]@ =~= log_tag());
            assert(w@ =~= chain_encoding(self@));
        }
        w.finish()
    }

    /// The cold form of the log, for a rotated archive: compressed only when
    /// that makes it smaller. It reads back as the stored form of the log.
    pub fn encode_cold(&self) -> (out: Vec<u8>)
        ensures
            out@ == crate::pack::cold_bytes(chain_encoding(self@)),
            chain_encoding(self@).len() <= u32::MAX ==> crate::pack::stored_result(out@) == Ok::<Seq<u8>, Error>(
                chain_encoding(self@),
            ),
    {
        let raw = self.encode();
        proof {
            assert(raw@.subrange(0, 4) =~= log_tag());
            assert(log_tag()[2] != crate::pack::cold_tag()[2]);
        }
        crate::pack::pack_cold(raw.as_slice())
    }

    pub fn decode(bytes: &[u8]) -> (res: Result<Self, Error>)
        ensures
            match res {
                Ok(c) => c.wf() && chain_decode_result(bytes@) == Ok::<ChainView, Error>(c@) && replayable(c@),
                Err(e) => chain_decode_result(bytes@) == Err::<ChainView, Error>(e),
            },
    {
        let ghost b = bytes@;
        let mut r = Reader::new(bytes);
        let magic = r.take(4)?;
        proof {
            assert([87u8, 76u8, 79u8, 71u8]@ =~= log_tag());
        }
        if !tag_is(magic, &[87u8, 76u8, 79u8, 71u8]) {
            return Err(Error::NotAChannelLog);
        }
        let version = r.u16()?;
        proof {
            lemma_be16(version);
        }
        if version != 1 {
            return Err(Error::BadLogVersion);
        }
        let flags = r.u16()?;
        proof {
            lemma_be16(flags);
        }
        let truncated_tip = if flags & 1 == 1 {
            Some(r.arr32()?)
        } else {
            None
        };
        let ghost p = r.pos();
        let n = r.u32()?;
        proof {
            lemma_be32(n);
        }
        let mut chain = Chain::new();
        chain.truncated_tip = truncated_tip;
        let strict = truncated_tip.is_none();
        let ghost c0 = chain@;
        let ghost outcome = match replay_at(b, p + 4, n as nat, c0, strict) {
            Err(e) => Err::<ChainView, Error>(e),
            Ok((c, q)) => if q != b.len() {
                Err::<ChainView, Error>(Error::TrailingBytes)
            } else {
                Ok::<ChainView, Error>(c)
            },
        };
        proof {
            assert(c0 == empty_chain(c0.truncated_tip));
            assert(chain_decode_result(b) == outcome);
        }
        let mut i: u32 = 0;
        while i < n
            invariant
                b == bytes@,
                chain_decode_result(b) == outcome,
                outcome == match replay_at(b, p + 4, n as nat, c0, strict) {
                    Err(e) => Err::<ChainView, Error>(e),
                    Ok((c, q)) => if q != b.len() {
                        Err::<ChainView, Error>(Error::TrailingBytes)
                    } else {
                        Ok::<ChainView, Error>(c)
                    },
                },
                r.data() == b,
                i <= n,
                chain.wf(),
                0 <= p + 4 <= r.pos(),
                replay_at(b, p + 4, i as nat, c0, strict) == Ok::<(ChainView, int), Error>((chain@, r.pos())),
            decreases n - i,
        {
            match take_stored_event(&mut chain, &mut r, strict) {
                Ok(_) => {},
                Err(e) => {
                    proof {
                        assert(replay_at(b, p + 4, (i + 1) as nat, c0, strict) == Err::<(ChainView, int), Error>(e));
                        lemma_replay_err(b, p + 4, (i + 1) as nat, n as nat, c0, strict);
                        assert(outcome == Err::<ChainView, Error>(e));
                    }
                    return Err(e);
                },
            }
            i = i + 1;
        }
        r.finish()?;
        proof {
            lemma_loaded_log_replayable(b);
        }
        Ok(chain)
    }
}

// ---------------------------------------------------------------------------
// Truncation
// ---------------------------------------------------------------------------

/// The first index at or after `i` of the event with this id.
pub open spec fn index_of_id(evs: Seq<EventView>, id: Seq<u8>, i: int) -> Option<int>
    decreases evs.len() - i,
{
    if i < 0 || i >= evs.len() {
        None
    } else if event_id(evs[i]) == id {
        Some(i)
    } else {
        index_of_id(evs, id, i + 1)
    }
}

/// Whether following parents up from `cur`, at most `fuel` steps and never
/// past the zero id or an event not in the log, reaches `maybe`.
pub open spec fn ancestor_within(evs: Seq<EventView>, maybe: Seq<u8>, cur: Seq<u8>, fuel: nat) -> bool
    decreases fuel,
{
    if fuel == 0 {
        false
    } else {
        match index_of_id(evs, cur, 0) {
            None => false,
            Some(i) => {
                let prev = evs[i].prev;
                if prev == maybe {
                    true
                } else if prev == zeros32() {
                    false
                } else {
                    ancestor_within(evs, maybe, prev, (fuel - 1) as nat)
                }
            },
        }
    }
}

/// Whether `maybe` is reached from `desc` by following parents through the
/// events of the log. The walk is deterministic, so once it comes back to an
/// event it only goes round again: every event it can reach it reaches within
/// as many steps as the log holds events, and that is the bound.
pub open spec fn is_ancestor_of(evs: Seq<EventView>, maybe: Seq<u8>, desc: Seq<u8>) -> bool {
    ancestor_within(evs, maybe, desc, evs.len())
}

/// The parent named by the event with id `cur`, or `cur` itself when the log
/// holds no such event.
spec fn parent_of(evs: Seq<EventView>, cur: Seq<u8>) -> Seq<u8> {
    match index_of_id(evs, cur, 0) {
        Some(i) => evs[i].prev,
        None => cur,
    }
}

/// Where the walk up from `cur` stands after `j` steps.
spec fn walk_at(evs: Seq<EventView>, cur: Seq<u8>, j: nat) -> Seq<u8>
    decreases j,
{
    if j == 0 {
        cur
    } else {
        walk_at(evs, parent_of(evs, cur), (j - 1) as nat)
    }
}

/// The walk up from `cur` takes `j` steps without stopping: each event it
/// stands on is held and names neither `maybe` nor the zero id as parent.
spec fn walk_goes_on(evs: Seq<EventView>, maybe: Seq<u8>, cur: Seq<u8>, j: nat) -> bool
    decreases j,
{
    j == 0 || (index_of_id(evs, cur, 0) is Some && parent_of(evs, cur) != maybe && parent_of(evs, cur)
        != zeros32() && walk_goes_on(evs, maybe, parent_of(evs, cur), (j - 1) as nat))
}

proof fn lemma_index_of_id(evs: Seq<EventView>, id: Seq<u8>, i: int)
    requires
        index_of_id(evs, id, i) is Some,
    ensures
        0 <= index_of_id(evs, id, i)->0 < evs.len(),
        event_id(evs[index_of_id(evs, id, i)->0]) == id,
    decreases evs.len() - i,
{
    if 0 <= i < evs.len() && event_id(evs[i]) != id {
        lemma_index_of_id(evs, id, i + 1);
    }
}

proof fn lemma_walk_split(evs: Seq<EventView>, maybe: Seq<u8>, cur: Seq<u8>, p: nat, r: nat)
    ensures
        walk_goes_on(evs, maybe, cur, p + r) == (walk_goes_on(evs, maybe, cur, p) && walk_goes_on(
            evs,
            maybe,
            walk_at(evs, cur, p),
            r,
        )),
        walk_at(evs, cur, p + r) == walk_at(evs, walk_at(evs, cur, p), r),
    decreases p,
{
    if p > 0 {
        lemma_walk_split(evs, maybe, parent_of(evs, cur), (p - 1) as nat, r);
        assert((p + r - 1) as nat == (p - 1) as nat + r);
    }
}

proof fn lemma_walk_shift(evs: Seq<EventView>, maybe: Seq<u8>, cur: Seq<u8>, j: nat, r: nat)
    requires
        walk_goes_on(evs, maybe, cur, j),
    ensures
        ancestor_within(evs, maybe, cur, j + r) == ancestor_within(evs, maybe, walk_at(evs, cur, j), r),
    decreases j,
{
    if j > 0 {
        lemma_walk_shift(evs, maybe, parent_of(evs, cur), (j - 1) as nat, r);
        assert((j + r - 1) as nat == (j - 1) as nat + r);
    }
}

proof fn lemma_walk_stops(evs: Seq<EventView>, maybe: Seq<u8>, cur: Seq<u8>, k: nat, big: nat)
    requires
        !walk_goes_on(evs, maybe, cur, k),
        k <= big,
    ensures
        ancestor_within(evs, maybe, cur, big) == ancestor_within(evs, maybe, cur, k),
    decreases k,
{
    if index_of_id(evs, cur, 0) is Some && parent_of(evs, cur) != maybe && parent_of(evs, cur) != zeros32() {
        lemma_walk_stops(evs, maybe, parent_of(evs, cur), (k - 1) as nat, (big - 1) as nat);
    }
}

proof fn lemma_walk_cycle(evs: Seq<EventView>, maybe: Seq<u8>, x: Seq<u8>, p: nat, big: nat)
    requires
        0 < p,
        walk_goes_on(evs, maybe, x, p),
        walk_at(evs, x, p) == x,
    ensures
        walk_goes_on(evs, maybe, x, big),
    decreases big,
{
    if big <= p {
        lemma_walk_split(evs, maybe, x, big, (p - big) as nat);
    } else {
        lemma_walk_split(evs, maybe, x, p, (big - p) as nat);
        lemma_walk_cycle(evs, maybe, x, p, (big - p) as nat);
    }
}

/// A walk that stands on held events at each of its first `len + 1` places
/// stands twice on the same one.
proof fn lemma_walk_repeats(evs: Seq<EventView>, maybe: Seq<u8>, cur: Seq<u8>)
    requires
        walk_goes_on(evs, maybe, cur, evs.len()),
        index_of_id(evs, walk_at(evs, cur, evs.len()), 0) is Some,
    ensures
        exists|a: nat, b: nat| a < b <= evs.len() && walk_at(evs, cur, a) == walk_at(evs, cur, b),
{
    let n: int = evs.len() as int;
    let f = |j: int| index_of_id(evs, walk_at(evs, cur, j as nat), 0)->0;
    let x = vstd::set_lib::set_int_range(0, n + 1);
    let y = x.map(f);
    let range = vstd::set_lib::set_int_range(0, n);
    assert forall|j: int| 0 <= j <= n implies index_of_id(evs, walk_at(evs, cur, j as nat), 0) is Some && 0 <= #[trigger] f(j) < n by {
        if j < n {
            lemma_walk_split(evs, maybe, cur, j as nat, (n - j) as nat);
            assert((j as nat + (n - j) as nat) == evs.len());
        }
        lemma_index_of_id(evs, walk_at(evs, cur, j as nat), 0);
    }
    assert(y.subset_of(range)) by {
        assert forall|v: int| y.contains(v) implies range.contains(v) by {
            let j = choose|j: int| x.contains(j) && f(j) == v;
        }
    }
    vstd::set_lib::lemma_int_range(0, n + 1);
    vstd::set_lib::lemma_int_range(0, n);
    vstd::set_lib::lemma_len_subset(y, range);
    if vstd::relations::injective_on(f, x) {
        vstd::set_lib::lemma_map_size(x, y, f);
        assert(false);
    }
    let (a, b) = choose|a: int, b: int| x.contains(a) && x.contains(b) && #[trigger] f(a) == #[trigger] f(b) && a != b;
    lemma_index_of_id(evs, walk_at(evs, cur, a as nat), 0);
    lemma_index_of_id(evs, walk_at(evs, cur, b as nat), 0);
    if a < b {
        assert(walk_at(evs, cur, a as nat) == walk_at(evs, cur, b as nat));
    } else {
        assert(walk_at(evs, cur, b as nat) == walk_at(evs, cur, a as nat));
    }
}

/// Walking up further than the log holds events finds nothing more: by then
/// the walk has stopped, or has come back to an event it passed and only goes
/// round. So `is_ancestor_of` is the walk with no bound on its length.
pub proof fn lemma_ancestor_walk_bound(evs: Seq<EventView>, maybe: Seq<u8>, cur: Seq<u8>, k: nat)
    requires
        evs.len() <= k,
    ensures
        ancestor_within(evs, maybe, cur, k) == is_ancestor_of(evs, maybe, cur),
{
    let n = evs.len();
    if !walk_goes_on(evs, maybe, cur, n) {
        lemma_walk_stops(evs, maybe, cur, n, k);
    } else if index_of_id(evs, walk_at(evs, cur, n), 0) is None {
        lemma_walk_shift(evs, maybe, cur, n, (k - n) as nat);
        lemma_walk_shift(evs, maybe, cur, n, 0);
    } else {
        lemma_walk_repeats(evs, maybe, cur);
        let (a, b) = choose|a: nat, b: nat| a < b <= n && walk_at(evs, cur, a) == walk_at(evs, cur, b);
        let p = (b - a) as nat;
        let w = walk_at(evs, cur, a);
        lemma_walk_split(evs, maybe, cur, a, (n - a) as nat);
        lemma_walk_split(evs, maybe, w, p, (n - b) as nat);
        lemma_walk_split(evs, maybe, cur, a, p);
        assert(a + p == b);
        lemma_walk_cycle(evs, maybe, w, p, (k - a) as nat);
        lemma_walk_split(evs, maybe, cur, a, (k - a) as nat);
        lemma_walk_shift(evs, maybe, cur, k, 0);
        lemma_walk_shift(evs, maybe, cur, n, 0);
    }
}

/// Whether truncating below `tip` archives event `e`: it is a strict
/// ancestor of the tip.
pub open spec fn archived(evs: Seq<EventView>, e: EventView, tip: Seq<u8>) -> bool {
    event_id(e) != tip && is_ancestor_of(evs, event_id(e), tip)
}

/// The first `n` events split into those archived and those kept hot.
pub open spec fn split_upto(evs: Seq<EventView>, tip: Seq<u8>, n: int) -> (Seq<EventView>, Seq<EventView>)
    decreases n,
{
    if n <= 0 {
        (Seq::empty(), Seq::empty())
    } else {
        let (a, h) = split_upto(evs, tip, n - 1);
        if archived(evs, evs[n - 1], tip) {
            (a.push(evs[n - 1]), h)
        } else {
            (a, h.push(evs[n - 1]))
        }
    }
}

/// Taking the first `n` events into `c0` one by one.
pub open spec fn fold_insert(evs: Seq<EventView>, n: int, c0: ChainView, strict: bool, record: bool) -> Result<
    ChainView,
    Error,
>
    decreases n,
{
    if n <= 0 {
        Ok(c0)
    } else {
        match fold_insert(evs, n - 1, c0, strict, record) {
            Err(e) => Err(e),
            Ok(c) => match insert_result(c, evs[n - 1], strict, record).1 {
                Err(e) => Err(e),
                Ok(_) => Ok(insert_result(c, evs[n - 1], strict, record).0),
            },
        }
    }
}

/// Truncating below `tip`: the tip must be in the log; its strict
/// ancestors go, in order, to a new archive log that keeps the log's own
/// archive tip (their parents may have been cut by an earlier truncation);
/// the rest stays in a hot log that remembers the tip and keeps the forks
/// seen so far. Gives the new hot log and the archive.
pub open spec fn truncate_result(c: ChainView, tip: Seq<u8>) -> Result<(ChainView, ChainView), Error> {
    if !has_id(c.events, tip) {
        Err(Error::CoveredTipNotInHotLog)
    } else {
        let (a, h) = split_upto(c.events, tip, c.events.len() as int);
        match fold_insert(a, a.len() as int, empty_chain(c.truncated_tip), false, false) {
            Err(e) => Err(e),
            Ok(archive) => match fold_insert(h, h.len() as int, empty_chain(Some(tip)), false, false) {
                Err(e) => Err(e),
                Ok(hot) => Ok((ChainView { forks: c.forks, ..hot }, archive)),
            },
        }
    }
}

proof fn lemma_fold_err(evs: Seq<EventView>, n: int, m: int, c0: ChainView, strict: bool, record: bool)
    requires
        0 <= n <= m,
        fold_insert(evs, n, c0, strict, record) is Err,
    ensures
        fold_insert(evs, m, c0, strict, record) == fold_insert(evs, n, c0, strict, record),
    decreases m - n,
{
    if m > n {
        lemma_fold_err(evs, n, m - 1, c0, strict, record);
    }
}

proof fn lemma_fold_prefix(evs: Seq<EventView>, e: EventView, n: int, c0: ChainView, strict: bool, record: bool)
    requires
        0 <= n <= evs.len(),
    ensures
        fold_insert(evs.push(e), n, c0, strict, record) == fold_insert(evs, n, c0, strict, record),
    decreases n,
{
    if n > 0 {
        lemma_fold_prefix(evs, e, n - 1, c0, strict, record);
        assert(evs.push(e)[n - 1] == evs[n - 1]);
    }
}

/// Every event taken in by a fold that succeeded is in its result.
proof fn lemma_fold_has(evs: Seq<EventView>, n: int, c0: ChainView, strict: bool, record: bool, i: int)
    requires
        0 <= i < n <= evs.len(),
        fold_insert(evs, n, c0, strict, record) is Ok,
    ensures
        has_id(fold_insert(evs, n, c0, strict, record)->Ok_0.events, event_id(evs[i])),
    decreases n,
{
    reveal(insert_result);
    let c = fold_insert(evs, n - 1, c0, strict, record);
    if n - 1 > i {
        lemma_fold_has(evs, n - 1, c0, strict, record, i);
        let prevc = c->Ok_0;
        let k = choose|k: int| 0 <= k < prevc.events.len() && event_id(#[trigger] prevc.events[k]) == event_id(evs[i]);
        let next = fold_insert(evs, n, c0, strict, record)->Ok_0;
        assert(next.events[k] == prevc.events[k]);
    } else {
        let prevc = c->Ok_0;
        let next = fold_insert(evs, n, c0, strict, record)->Ok_0;
        if !has_id(prevc.events, event_id(evs[i])) {
            assert(next.events[prevc.events.len() as int] == evs[i]);
        }
    }
}

/// Truncation keeps the covered tip in the hot log, keeps every fork seen,
/// and remembers the tip; so a fork seen before truncation is still seen.
pub proof fn lemma_truncate_keeps_tip_and_forks(c: ChainView, tip: Seq<u8>)
    requires
        truncate_result(c, tip) is Ok,
    ensures
        has_id(truncate_result(c, tip)->Ok_0.0.events, tip),
        truncate_result(c, tip)->Ok_0.0.forks == c.forks,
        truncate_result(c, tip)->Ok_0.0.truncated_tip == Some(tip),
        c.forks.len() > 0 ==> fork_seen(truncate_result(c, tip)->Ok_0.0),
{
    let n = c.events.len() as int;
    let k = choose|k: int| 0 <= k < c.events.len() && event_id(#[trigger] c.events[k]) == tip;
    lemma_split_keeps_hot(c.events, tip, n, k);
    let (a, h) = split_upto(c.events, tip, n);
    let j = choose|j: int| 0 <= j < h.len() && #[trigger] h[j] == c.events[k];
    lemma_fold_has(h, h.len() as int, empty_chain(Some(tip)), false, false, j);
    lemma_fold_keeps_tip(h, h.len() as int, empty_chain(Some(tip)), false, false);
}

/// Each of the first `n` events lands in the archived part or in the hot
/// part of the split.
proof fn lemma_split_places(evs: Seq<EventView>, tip: Seq<u8>, n: int, k: int)
    requires
        0 <= k < n <= evs.len(),
    ensures
        archived(evs, evs[k], tip) ==> exists|j: int| 0 <= j < split_upto(evs, tip, n).0.len() && #[trigger] split_upto(evs, tip, n).0[j] == evs[k],
        !archived(evs, evs[k], tip) ==> exists|j: int| 0 <= j < split_upto(evs, tip, n).1.len() && #[trigger] split_upto(evs, tip, n).1[j] == evs[k],
    decreases n,
{
    let (a, h) = split_upto(evs, tip, n - 1);
    let (a2, h2) = split_upto(evs, tip, n);
    if k < n - 1 {
        lemma_split_places(evs, tip, n - 1, k);
        if archived(evs, evs[k], tip) {
            let j = choose|j: int| 0 <= j < a.len() && #[trigger] a[j] == evs[k];
            assert(a2[j] == evs[k]);
        } else {
            let j = choose|j: int| 0 <= j < h.len() && #[trigger] h[j] == evs[k];
            assert(h2[j] == evs[k]);
        }
    } else if archived(evs, evs[k], tip) {
        assert(a2[a.len() as int] == evs[k]);
    } else {
        assert(h2[h.len() as int] == evs[k]);
    }
}

/// Truncation deletes nothing: every event of the log is afterwards in the
/// hot log or in the archive.
pub proof fn lemma_truncate_loses_nothing(c: ChainView, tip: Seq<u8>)
    requires
        truncate_result(c, tip) is Ok,
    ensures
        forall|k: int|
            0 <= k < c.events.len() ==> has_id(truncate_result(c, tip)->Ok_0.0.events, event_id(#[trigger] c.events[k]))
                || has_id(truncate_result(c, tip)->Ok_0.1.events, event_id(c.events[k])),
{
    let n = c.events.len() as int;
    let (a, h) = split_upto(c.events, tip, n);
    assert forall|k: int| 0 <= k < c.events.len() implies has_id(truncate_result(c, tip)->Ok_0.0.events, event_id(
        #[trigger] c.events[k],
    )) || has_id(truncate_result(c, tip)->Ok_0.1.events, event_id(c.events[k])) by {
        lemma_split_places(c.events, tip, n, k);
        if archived(c.events, c.events[k], tip) {
            let j = choose|j: int| 0 <= j < a.len() && #[trigger] a[j] == c.events[k];
            lemma_fold_has(a, a.len() as int, empty_chain(c.truncated_tip), false, false, j);
        } else {
            let j = choose|j: int| 0 <= j < h.len() && #[trigger] h[j] == c.events[k];
            lemma_fold_has(h, h.len() as int, empty_chain(Some(tip)), false, false, j);
        }
    }
}

/// A fold into an empty log that succeeded holds distinct, signed events,
/// no more than it took, each one of them.
proof fn lemma_fold_distinct(evs: Seq<EventView>, n: int, tip: Option<Seq<u8>>, strict: bool, record: bool)
    requires
        0 <= n <= evs.len(),
        fold_insert(evs, n, empty_chain(tip), strict, record) is Ok,
    ensures
        distinct_signed(fold_insert(evs, n, empty_chain(tip), strict, record)->Ok_0.events),
        fold_insert(evs, n, empty_chain(tip), strict, record)->Ok_0.events.len() <= n,
        forall|k: int|
            0 <= k < fold_insert(evs, n, empty_chain(tip), strict, record)->Ok_0.events.len() ==> exists|w: int|
                0 <= w < n && #[trigger] fold_insert(evs, n, empty_chain(tip), strict, record)->Ok_0.events[k]
                    == evs[w],
    decreases n,
{
    reveal(insert_result);
    if n > 0 {
        lemma_fold_distinct(evs, n - 1, tip, strict, record);
        let c = fold_insert(evs, n - 1, empty_chain(tip), strict, record)->Ok_0;
        let c2 = fold_insert(evs, n, empty_chain(tip), strict, record)->Ok_0;
        let e = evs[n - 1];
        if c2.events.len() > c.events.len() {
            assert(c2.events == c.events.push(e));
            assert(!has_id(c.events, event_id(e)));
            assert forall|i: int, j: int| 0 <= i < j < c2.events.len() implies event_id(#[trigger] c2.events[i])
                != event_id(#[trigger] c2.events[j]) by {
                assert(c2.events[i] == c.events[i]);
                if j < c.events.len() {
                    assert(c2.events[j] == c.events[j]);
                } else {
                    assert(c2.events[j] == e);
                }
            }
            assert forall|k: int| 0 <= k < c2.events.len() implies event_sig_result(#[trigger] c2.events[k]) is Ok by {
                if k < c.events.len() {
                    assert(c2.events[k] == c.events[k]);
                }
            }
            assert forall|k: int| 0 <= k < c2.events.len() implies exists|w: int|
                0 <= w < n && #[trigger] c2.events[k] == evs[w] by {
                if k < c.events.len() {
                    let w = choose|w: int| 0 <= w < n - 1 && #[trigger] c.events[k] == evs[w];
                    assert(c2.events[k] == evs[w]);
                } else {
                    assert(c2.events[k] == evs[n - 1]);
                }
            }
        }
    }
}

proof fn lemma_split_len(evs: Seq<EventView>, tip: Seq<u8>, n: int)
    requires
        0 <= n,
    ensures
        split_upto(evs, tip, n).1.len() <= n,
    decreases n,
{
    if n > 0 {
        lemma_split_len(evs, tip, n - 1);
    }
}

/// The hot log that truncation leaves loads back from its stored form with
/// the same events in the same order and the same archive tip, the covered
/// tip, which it still holds; so it has the same tips. The loaded log sees a
/// fork exactly when the hot log has more than one tip or holds two events
/// with the same parent, and it is a replay of its own events.
pub proof fn lemma_truncated_log_loads(c: ChainView, tip: Seq<u8>)
    requires
        truncate_result(c, tip) is Ok,
        tip.len() == 32,
        c.events.len() <= u32::MAX,
        forall|i: int| 0 <= i < c.events.len() ==> crate::model::event_sized(#[trigger] c.events[i])
            && event_encoding(c.events[i]).len() <= u32::MAX,
    ensures
        chain_decode_result(chain_encoding(truncate_result(c, tip)->Ok_0.0)) is Ok,
        chain_decode_result(chain_encoding(truncate_result(c, tip)->Ok_0.0))->Ok_0.events == truncate_result(
            c,
            tip,
        )->Ok_0.0.events,
        chain_decode_result(chain_encoding(truncate_result(c, tip)->Ok_0.0))->Ok_0.truncated_tip == Some(tip),
        has_id(chain_decode_result(chain_encoding(truncate_result(c, tip)->Ok_0.0))->Ok_0.events, tip),
        tips_of(chain_decode_result(chain_encoding(truncate_result(c, tip)->Ok_0.0))->Ok_0.events) == tips_of(
            truncate_result(c, tip)->Ok_0.0.events,
        ),
        fork_seen(chain_decode_result(chain_encoding(truncate_result(c, tip)->Ok_0.0))->Ok_0) <==> (tips_of(
            truncate_result(c, tip)->Ok_0.0.events,
        ).len() > 1 || has_siblings(truncate_result(c, tip)->Ok_0.0.events)),
        replayable(chain_decode_result(chain_encoding(truncate_result(c, tip)->Ok_0.0))->Ok_0),
{
    let n = c.events.len() as int;
    lemma_truncate_keeps_tip_and_forks(c, tip);
    let h = split_upto(c.events, tip, n).1;
    lemma_split_from(c.events, tip, n);
    lemma_split_len(c.events, tip, n);
    lemma_fold_distinct(h, h.len() as int, Some(tip), false, false);
    let hot = truncate_result(c, tip)->Ok_0.0;
    assert forall|k: int| 0 <= k < hot.events.len() implies crate::model::event_sized(#[trigger] hot.events[k])
        && event_encoding(hot.events[k]).len() <= u32::MAX by {
        let w = choose|w: int| 0 <= w < h.len() && #[trigger] hot.events[k] == h[w];
        let v = choose|v: int| 0 <= v < c.events.len() && #[trigger] h[w] == c.events[v];
        assert(hot.events[k] == c.events[v]);
    }
    lemma_log_loads_back(hot);
}

proof fn lemma_fold_keeps_tip(evs: Seq<EventView>, n: int, c0: ChainView, strict: bool, record: bool)
    requires
        0 <= n <= evs.len(),
        fold_insert(evs, n, c0, strict, record) is Ok,
    ensures
        fold_insert(evs, n, c0, strict, record)->Ok_0.truncated_tip == c0.truncated_tip,
    decreases n,
{
    reveal(insert_result);
    if n > 0 {
        lemma_fold_keeps_tip(evs, n - 1, c0, strict, record);
    }
}

/// An event that is not archived lands in the hot part.
proof fn lemma_split_keeps_hot(evs: Seq<EventView>, tip: Seq<u8>, n: int, k: int)
    requires
        0 <= k < n <= evs.len(),
        event_id(evs[k]) == tip,
    ensures
        exists|j: int| 0 <= j < split_upto(evs, tip, n).1.len() && #[trigger] split_upto(evs, tip, n).1[j] == evs[k],
    decreases n,
{
    let h = split_upto(evs, tip, n - 1).1;
    let h2 = split_upto(evs, tip, n).1;
    if k < n - 1 {
        lemma_split_keeps_hot(evs, tip, n - 1, k);
        let j = choose|j: int| 0 <= j < h.len() && #[trigger] h[j] == evs[k];
        assert(h2[j] == evs[k]);
    } else {
        assert(!archived(evs, evs[k], tip));
        assert(h2[h.len() as int] == evs[k]);
    }
}

fn copy_forks(v: &Vec<([u8; 32], [u8; 32])>) -> (out: Vec<([u8; 32], [u8; 32])>)
    ensures
        out@ == v@,
{
    let mut out: Vec<([u8; 32], [u8; 32])> = Vec::new();
    let mut i: usize = 0;
    while i < v.len()
        invariant
            i <= v@.len(),
            out@ == v@.subrange(0, i as int),
        decreases v@.len() - i,
    {
        out.push(v[i]);
        i = i + 1;
        assert(out@ =~= v@.subrange(0, i as int));
    }
    assert(v@.subrange(0, i as int) =~= v@);
    out
}

/// A fold reads only the events it takes.
proof fn lemma_fold_same_prefix(l1: Seq<EventView>, l2: Seq<EventView>, k: int, c0: ChainView, strict: bool, record: bool)
    requires
        0 <= k <= l1.len(),
        k <= l2.len(),
        forall|i: int| 0 <= i < k ==> l1[i] == l2[i],
    ensures
        fold_insert(l1, k, c0, strict, record) == fold_insert(l2, k, c0, strict, record),
    decreases k,
{
    if k > 0 {
        lemma_fold_same_prefix(l1, l2, k - 1, c0, strict, record);
        assert(l1[k - 1] == l2[k - 1]);
    }
}

/// The archived part of a shorter prefix begins the archived part of a
/// longer one.
proof fn lemma_split_prefix(evs: Seq<EventView>, tip: Seq<u8>, n: int, m: int)
    requires
        0 <= n <= m,
    ensures
        split_upto(evs, tip, n).0.len() <= split_upto(evs, tip, m).0.len(),
        forall|i: int| 0 <= i < split_upto(evs, tip, n).0.len() ==> #[trigger] split_upto(evs, tip, n).0[i]
            == split_upto(evs, tip, m).0[i],
    decreases m - n,
{
    if m > n {
        lemma_split_prefix(evs, tip, n, m - 1);
    }
}

/// The hot part holds events of the log.
proof fn lemma_split_from(evs: Seq<EventView>, tip: Seq<u8>, n: int)
    requires
        0 <= n <= evs.len(),
    ensures
        forall|j: int| 0 <= j < split_upto(evs, tip, n).1.len() ==> exists|w: int| 0 <= w < evs.len() && #[trigger] split_upto(evs, tip, n).1[j] == evs[w],
    decreases n,
{
    if n > 0 {
        lemma_split_from(evs, tip, n - 1);
        let h = split_upto(evs, tip, n - 1).1;
        let h2 = split_upto(evs, tip, n).1;
        assert forall|j: int| 0 <= j < h2.len() implies exists|w: int| 0 <= w < evs.len() && #[trigger] h2[j] == evs[w] by {
            if j < h.len() {
                assert(h2[j] == h[j]);
                let w = choose|w: int| 0 <= w < evs.len() && h[j] == evs[w];
                assert(h2[j] == evs[w]);
            } else {
                assert(h2[j] == evs[n - 1]);
            }
        }
    }
}

// ---------------------------------------------------------------------------
// Forks across truncation
// ---------------------------------------------------------------------------

/// No event of the log is reached from itself by following parents.
pub open spec fn acyclic(evs: Seq<EventView>) -> bool {
    forall|i: int| 0 <= i < evs.len() ==> !is_ancestor_of(evs, event_id(#[trigger] evs[i]), event_id(evs[i]))
}

/// No event of the log has the zero id, which marks a missing parent.
pub open spec fn no_zero_ids(evs: Seq<EventView>) -> bool {
    forall|i: int| 0 <= i < evs.len() ==> event_id(#[trigger] evs[i]) != zeros32()
}

/// The log records a fork exactly when two of its events share a parent.
pub open spec fn forks_match(c: ChainView) -> bool {
    c.forks.len() > 0 <==> has_siblings(c.events)
}

/// The walk up from `cur` takes `j` steps through held events whose parents
/// are not the zero id.
spec fn walk_held(evs: Seq<EventView>, cur: Seq<u8>, j: nat) -> bool
    decreases j,
{
    j == 0 || (index_of_id(evs, cur, 0) is Some && parent_of(evs, cur) != zeros32() && walk_held(
        evs,
        parent_of(evs, cur),
        (j - 1) as nat,
    ))
}

/// After `j` such steps from `cur` the walk stands on a held event whose
/// parent is `m`.
spec fn reaches_at(evs: Seq<EventView>, m: Seq<u8>, cur: Seq<u8>, j: nat) -> bool {
    &&& walk_held(evs, cur, j)
    &&& index_of_id(evs, walk_at(evs, cur, j), 0) is Some
    &&& parent_of(evs, walk_at(evs, cur, j)) == m
}

proof fn lemma_held_split(evs: Seq<EventView>, cur: Seq<u8>, p: nat, r: nat)
    ensures
        walk_held(evs, cur, p + r) == (walk_held(evs, cur, p) && walk_held(evs, walk_at(evs, cur, p), r)),
        walk_at(evs, cur, p + r) == walk_at(evs, walk_at(evs, cur, p), r),
    decreases p,
{
    if p > 0 {
        lemma_held_split(evs, parent_of(evs, cur), (p - 1) as nat, r);
        assert((p + r - 1) as nat == (p - 1) as nat + r);
    }
}

/// A walk of `p` held steps stands on a held event at each place before `p`.
proof fn lemma_held_places(evs: Seq<EventView>, cur: Seq<u8>, p: nat, e: nat)
    requires
        walk_held(evs, cur, p),
        e < p,
    ensures
        index_of_id(evs, walk_at(evs, cur, e), 0) is Some,
        parent_of(evs, walk_at(evs, cur, e)) == walk_at(evs, cur, e + 1),
        parent_of(evs, walk_at(evs, cur, e)) != zeros32(),
{
    lemma_held_split(evs, cur, e, (p - e) as nat);
    lemma_held_split(evs, cur, e, 1);
    assert(walk_at(evs, walk_at(evs, cur, e), 1) == walk_at(evs, parent_of(evs, walk_at(evs, cur, e)), 0));
}

proof fn lemma_within_reaches(evs: Seq<EventView>, m: Seq<u8>, cur: Seq<u8>, k: nat)
    ensures
        ancestor_within(evs, m, cur, k) <==> exists|j: nat| j < k && #[trigger] reaches_at(evs, m, cur, j),
    decreases k,
{
    if k > 0 {
        let par = parent_of(evs, cur);
        lemma_within_reaches(evs, m, par, (k - 1) as nat);
        if exists|j: nat| j < k && #[trigger] reaches_at(evs, m, cur, j) {
            let j = choose|j: nat| j < k && #[trigger] reaches_at(evs, m, cur, j);
            if j > 0 {
                lemma_held_split(evs, cur, 1, (j - 1) as nat);
                assert(reaches_at(evs, m, par, (j - 1) as nat));
            }
        }
        if index_of_id(evs, cur, 0) is Some && par != m && par != zeros32() && ancestor_within(
            evs,
            m,
            par,
            (k - 1) as nat,
        ) {
            let j = choose|j: nat| j < k - 1 && #[trigger] reaches_at(evs, m, par, j);
            lemma_held_split(evs, cur, 1, j);
            assert(reaches_at(evs, m, cur, j + 1));
        }
        if index_of_id(evs, cur, 0) is Some && par == m {
            assert(reaches_at(evs, m, cur, 0));
        }
    }
}

/// Reaching `m` from `cur` after any number of held steps makes `m` an
/// ancestor of `cur`.
proof fn lemma_reaches_ancestor(evs: Seq<EventView>, m: Seq<u8>, cur: Seq<u8>, j: nat)
    requires
        reaches_at(evs, m, cur, j),
    ensures
        is_ancestor_of(evs, m, cur),
{
    let big: nat = if j + 1 > evs.len() { j + 1 } else { evs.len() };
    lemma_within_reaches(evs, m, cur, big);
    lemma_ancestor_walk_bound(evs, m, cur, big);
}

proof fn lemma_ancestor_reaches(evs: Seq<EventView>, m: Seq<u8>, cur: Seq<u8>)
    requires
        is_ancestor_of(evs, m, cur),
    ensures
        exists|j: nat| #[trigger] reaches_at(evs, m, cur, j),
{
    lemma_within_reaches(evs, m, cur, evs.len());
    let j = choose|j: nat| j < evs.len() && #[trigger] reaches_at(evs, m, cur, j);
    assert(reaches_at(evs, m, cur, j));
}

/// A held walk that comes back to where it began makes that event its own
/// ancestor.
proof fn lemma_back_to(evs: Seq<EventView>, x: Seq<u8>, p: nat)
    requires
        1 <= p,
        walk_held(evs, x, p),
        walk_at(evs, x, p) == x,
    ensures
        is_ancestor_of(evs, x, x),
        index_of_id(evs, x, 0) is Some,
{
    lemma_held_split(evs, x, (p - 1) as nat, 1);
    lemma_held_places(evs, x, p, (p - 1) as nat);
    lemma_held_places(evs, x, p, 0);
    assert(reaches_at(evs, x, x, (p - 1) as nat));
    lemma_reaches_ancestor(evs, x, x, (p - 1) as nat);
}

/// With distinct ids, the event with a given id is found where it stands.
proof fn lemma_index_unique(evs: Seq<EventView>, w: int, i: int)
    requires
        0 <= i <= w < evs.len(),
        forall|a: int, b: int| 0 <= a < b < evs.len() ==> event_id(#[trigger] evs[a]) != event_id(#[trigger] evs[b]),
    ensures
        index_of_id(evs, event_id(evs[w]), i) == Some(w),
    decreases w - i,
{
    if i < w {
        assert(event_id(evs[i]) != event_id(evs[w]));
        lemma_index_unique(evs, w, i + 1);
    }
}

/// A held event's own id leads the walk to it.
proof fn lemma_held_event(evs: Seq<EventView>, w: int)
    requires
        0 <= w < evs.len(),
        distinct_signed(evs),
    ensures
        index_of_id(evs, event_id(evs[w]), 0) == Some(w),
        parent_of(evs, event_id(evs[w])) == evs[w].prev,
{
    lemma_index_unique(evs, w, 0);
}

/// In an acyclic log no held walk comes back to where it began.
proof fn lemma_no_cycle(evs: Seq<EventView>, x: Seq<u8>, p: nat)
    requires
        acyclic(evs),
        1 <= p,
        walk_at(evs, x, p) == x,
    ensures
        !walk_held(evs, x, p),
{
    if walk_held(evs, x, p) {
        lemma_back_to(evs, x, p);
        lemma_index_of_id(evs, x, 0);
        let k = index_of_id(evs, x, 0)->0;
        assert(!is_ancestor_of(evs, event_id(evs[k]), event_id(evs[k])));
    }
}

/// A log `sub` whose events are each an event of `evs`, which has distinct
/// ids, walks as `evs` does wherever it holds the event.
proof fn lemma_sub_walk(sub: Seq<EventView>, evs: Seq<EventView>, m: Seq<u8>, cur: Seq<u8>, j: nat)
    requires
        distinct_signed(evs),
        forall|k: int| 0 <= k < sub.len() ==> exists|v: int| 0 <= v < evs.len() && #[trigger] sub[k] == evs[v],
        walk_held(sub, cur, j),
    ensures
        walk_held(evs, cur, j),
        walk_at(sub, cur, j) == walk_at(evs, cur, j),
        index_of_id(sub, walk_at(sub, cur, j), 0) is Some ==> (index_of_id(evs, walk_at(sub, cur, j), 0) is Some
            && parent_of(sub, walk_at(sub, cur, j)) == parent_of(evs, walk_at(sub, cur, j))),
    decreases j,
{
    if index_of_id(sub, cur, 0) is Some {
        lemma_index_of_id(sub, cur, 0);
        let k = index_of_id(sub, cur, 0)->0;
        let v = choose|v: int| 0 <= v < evs.len() && #[trigger] sub[k] == evs[v];
        lemma_held_event(evs, v);
    }
    if j > 0 {
        lemma_sub_walk(sub, evs, m, parent_of(sub, cur), (j - 1) as nat);
    }
}

proof fn lemma_sub_ancestor(sub: Seq<EventView>, evs: Seq<EventView>, m: Seq<u8>, cur: Seq<u8>)
    requires
        distinct_signed(evs),
        forall|k: int| 0 <= k < sub.len() ==> exists|v: int| 0 <= v < evs.len() && #[trigger] sub[k] == evs[v],
        is_ancestor_of(sub, m, cur),
    ensures
        is_ancestor_of(evs, m, cur),
{
    lemma_ancestor_reaches(sub, m, cur);
    let j = choose|j: nat| #[trigger] reaches_at(sub, m, cur, j);
    lemma_sub_walk(sub, evs, m, cur, j);
    assert(reaches_at(evs, m, cur, j));
    lemma_reaches_ancestor(evs, m, cur, j);
}

/// A walk that reaches `m`, which is not the zero id, takes one more held
/// step onto `m`.
proof fn lemma_reach_step(evs: Seq<EventView>, m: Seq<u8>, cur: Seq<u8>, j: nat)
    requires
        reaches_at(evs, m, cur, j),
        m != zeros32(),
    ensures
        walk_held(evs, cur, j + 1),
        walk_at(evs, cur, j + 1) == m,
{
    lemma_held_split(evs, cur, j, 1);
    let pj = walk_at(evs, cur, j);
    assert(walk_at(evs, pj, 1) == walk_at(evs, parent_of(evs, pj), 0));
    assert(walk_held(evs, parent_of(evs, pj), 0));
}

/// An ancestor of an event is an ancestor of its child.
proof fn lemma_step_down(evs: Seq<EventView>, m: Seq<u8>, z: int, w: int)
    requires
        distinct_signed(evs),
        no_zero_ids(evs),
        0 <= z < evs.len(),
        0 <= w < evs.len(),
        evs[w].prev == event_id(evs[z]),
        is_ancestor_of(evs, m, event_id(evs[z])),
    ensures
        is_ancestor_of(evs, m, event_id(evs[w])),
{
    lemma_ancestor_reaches(evs, m, event_id(evs[z]));
    let j = choose|j: nat| #[trigger] reaches_at(evs, m, event_id(evs[z]), j);
    lemma_held_event(evs, w);
    let idw = event_id(evs[w]);
    lemma_held_split(evs, idw, 1, j);
    assert(walk_at(evs, idw, 1) == walk_at(evs, parent_of(evs, idw), 0));
    assert(walk_held(evs, parent_of(evs, idw), 0));
    assert(walk_held(evs, idw, 1));
    assert(reaches_at(evs, m, idw, j + 1));
    lemma_reaches_ancestor(evs, m, idw, j + 1);
}

/// The indices of the events that are ancestors of event `z`.
spec fn anc_set(evs: Seq<EventView>, z: int) -> Set<int> {
    Set::new(|k: int| 0 <= k < evs.len() && is_ancestor_of(evs, event_id(evs[k]), event_id(evs[z])))
}

/// Below every event of an acyclic log stands an event without a child.
proof fn lemma_leaf_below(evs: Seq<EventView>, x: int, z: int)
    requires
        distinct_signed(evs),
        acyclic(evs),
        no_zero_ids(evs),
        0 <= x < evs.len(),
        0 <= z < evs.len(),
        z == x || is_ancestor_of(evs, event_id(evs[x]), event_id(evs[z])),
    ensures
        exists|t: int|
            0 <= t < evs.len() && !has_child(evs, event_id(#[trigger] evs[t])) && (t == x || is_ancestor_of(
                evs,
                event_id(evs[x]),
                event_id(evs[t]),
            )),
    decreases evs.len() - anc_set(evs, z).len(),
{
    let range = vstd::set_lib::set_int_range(0, evs.len() as int);
    vstd::set_lib::lemma_int_range(0, evs.len() as int);
    assert(anc_set(evs, z).subset_of(range));
    vstd::set_lib::lemma_len_subset(anc_set(evs, z), range);
    if !has_child(evs, event_id(evs[z])) {
        assert(!has_child(evs, event_id(evs[z])));
    } else {
        let w = choose|w: int| 0 <= w < evs.len() && (#[trigger] evs[w]).prev == event_id(evs[z]);
        lemma_held_event(evs, w);
        lemma_held_event(evs, z);
        let idw = event_id(evs[w]);
        assert(reaches_at(evs, event_id(evs[z]), idw, 0));
        lemma_reaches_ancestor(evs, event_id(evs[z]), idw, 0);
        assert forall|k: int| anc_set(evs, z).contains(k) implies anc_set(evs, w).contains(k) by {
            lemma_step_down(evs, event_id(evs[k]), z, w);
        }
        assert(!anc_set(evs, z).contains(z));
        assert(anc_set(evs, z).insert(z).subset_of(anc_set(evs, w)));
        assert(anc_set(evs, w).subset_of(range));
        vstd::set_lib::lemma_len_subset(anc_set(evs, w), range);
        vstd::set_lib::lemma_len_subset(anc_set(evs, z).insert(z), anc_set(evs, w));
        if z != x {
            lemma_step_down(evs, event_id(evs[x]), z, w);
        }
        lemma_leaf_below(evs, x, w);
    }
}

proof fn lemma_tips_at_least(evs: Seq<EventView>, n: int, a: int)
    requires
        0 <= a < n <= evs.len(),
        !has_child(evs, event_id(evs[a])),
    ensures
        tips_upto(evs, n).len() >= 1,
    decreases n,
{
    if a < n - 1 {
        lemma_tips_at_least(evs, n - 1, a);
    }
}

/// Two events without a child make two tips.
proof fn lemma_two_tips(evs: Seq<EventView>, n: int, a: int, b: int)
    requires
        0 <= a < b < n <= evs.len(),
        !has_child(evs, event_id(evs[a])),
        !has_child(evs, event_id(evs[b])),
    ensures
        tips_upto(evs, n).len() >= 2,
    decreases n,
{
    if b < n - 1 {
        lemma_two_tips(evs, n - 1, a, b);
    } else {
        lemma_tips_at_least(evs, n - 1, a);
    }
}

/// Two ancestors of one event stand on its one line up: they are equal or
/// one is an ancestor of the other.
proof fn lemma_one_line(evs: Seq<EventView>, a: Seq<u8>, b: Seq<u8>, y: Seq<u8>)
    requires
        is_ancestor_of(evs, a, y),
        is_ancestor_of(evs, b, y),
        a != zeros32(),
        b != zeros32(),
    ensures
        a == b || is_ancestor_of(evs, a, b) || is_ancestor_of(evs, b, a),
{
    lemma_ancestor_reaches(evs, a, y);
    let ja = choose|j: nat| #[trigger] reaches_at(evs, a, y, j);
    lemma_ancestor_reaches(evs, b, y);
    let jb = choose|j: nat| #[trigger] reaches_at(evs, b, y, j);
    lemma_reach_step(evs, a, y, ja);
    lemma_reach_step(evs, b, y, jb);
    if ja < jb {
        let d = (jb - ja - 1) as nat;
        lemma_held_split(evs, y, ja + 1, d);
        assert(ja + 1 + d == jb);
        assert(reaches_at(evs, b, a, d));
        lemma_reaches_ancestor(evs, b, a, d);
    } else if jb < ja {
        let d = (ja - jb - 1) as nat;
        lemma_held_split(evs, y, jb + 1, d);
        assert(jb + 1 + d == ja);
        assert(reaches_at(evs, a, b, d));
        lemma_reaches_ancestor(evs, a, b, d);
    }
}

/// Two siblings: no held walk leads from one, `q >= 1` steps, onto the other
/// in an acyclic log.
proof fn lemma_sibling_cycle(evs: Seq<EventView>, i1: int, i2: int, q: nat)
    requires
        distinct_signed(evs),
        acyclic(evs),
        no_zero_ids(evs),
        0 <= i1 < evs.len(),
        0 <= i2 < evs.len(),
        evs[i1].prev == evs[i2].prev,
        1 <= q,
        walk_at(evs, event_id(evs[i2]), q) == event_id(evs[i1]),
    ensures
        !walk_held(evs, event_id(evs[i2]), q),
{
    let s1 = event_id(evs[i1]);
    let s2 = event_id(evs[i2]);
    let p = evs[i2].prev;
    if walk_held(evs, s2, q) {
        lemma_held_event(evs, i1);
        lemma_held_event(evs, i2);
        lemma_held_places(evs, s2, q, 0);
        assert(walk_at(evs, s2, 1) == p);
        assert(p != zeros32());
        lemma_held_split(evs, s2, q, 1);
        assert(walk_at(evs, s1, 1) == walk_at(evs, parent_of(evs, s1), 0));
        assert(walk_held(evs, parent_of(evs, s1), 0));
        assert(walk_held(evs, s1, 1));
        assert(walk_at(evs, s2, q + 1) == p);
        lemma_held_split(evs, s2, 1, q);
        lemma_no_cycle(evs, p, q);
    }
}

/// An event with ancestor `s1` is neither `s1`'s sibling `s2` nor one of
/// `s2`'s ancestors, in an acyclic log.
proof fn lemma_sibling_off_line(evs: Seq<EventView>, i1: int, i2: int, x: Seq<u8>)
    requires
        distinct_signed(evs),
        acyclic(evs),
        no_zero_ids(evs),
        0 <= i1 < evs.len(),
        0 <= i2 < evs.len(),
        evs[i1].prev == evs[i2].prev,
        is_ancestor_of(evs, event_id(evs[i1]), x),
    ensures
        x != event_id(evs[i2]),
        !is_ancestor_of(evs, x, event_id(evs[i2])),
{
    let s1 = event_id(evs[i1]);
    let s2 = event_id(evs[i2]);
    lemma_ancestor_reaches(evs, s1, x);
    let j1 = choose|j: nat| #[trigger] reaches_at(evs, s1, x, j);
    lemma_reach_step(evs, s1, x, j1);
    if x == s2 {
        lemma_sibling_cycle(evs, i1, i2, j1 + 1);
    }
    if is_ancestor_of(evs, x, s2) {
        lemma_ancestor_reaches(evs, x, s2);
        let j2 = choose|j: nat| #[trigger] reaches_at(evs, x, s2, j);
        assert(walk_held(evs, x, 0));
        lemma_index_of_id(evs, x, 0);
        let kx = index_of_id(evs, x, 0)->0;
        assert(x != zeros32()) by {
            assert(event_id(evs[kx]) != zeros32());
        }
        lemma_reach_step(evs, x, s2, j2);
        lemma_held_split(evs, s2, j2 + 1, j1 + 1);
        lemma_sibling_cycle(evs, i1, i2, j2 + 1 + j1 + 1);
    }
}

/// What truncation leaves hot: distinct, signed events of the log, the
/// covered tip among them.
proof fn lemma_hot_from_log(c: ChainView, tip: Seq<u8>)
    requires
        truncate_result(c, tip) is Ok,
    ensures
        distinct_signed(truncate_result(c, tip)->Ok_0.0.events),
        forall|k: int|
            0 <= k < truncate_result(c, tip)->Ok_0.0.events.len() ==> exists|v: int|
                0 <= v < c.events.len() && #[trigger] truncate_result(c, tip)->Ok_0.0.events[k] == c.events[v],
        has_id(truncate_result(c, tip)->Ok_0.0.events, tip),
{
    let n = c.events.len() as int;
    lemma_truncate_keeps_tip_and_forks(c, tip);
    let h = split_upto(c.events, tip, n).1;
    lemma_split_from(c.events, tip, n);
    lemma_fold_distinct(h, h.len() as int, Some(tip), false, false);
    let hot = truncate_result(c, tip)->Ok_0.0;
    assert forall|k: int| 0 <= k < hot.events.len() implies exists|v: int|
        0 <= v < c.events.len() && #[trigger] hot.events[k] == c.events[v] by {
        let w = choose|w: int| 0 <= w < h.len() && #[trigger] hot.events[k] == h[w];
        let v = choose|v: int| 0 <= v < c.events.len() && #[trigger] h[w] == c.events[v];
        assert(hot.events[k] == c.events[v]);
    }
}

/// Events drawn from an acyclic log without the zero id keep both.
proof fn lemma_sub_props(sub: Seq<EventView>, evs: Seq<EventView>)
    requires
        distinct_signed(evs),
        acyclic(evs),
        no_zero_ids(evs),
        forall|k: int| 0 <= k < sub.len() ==> exists|v: int| 0 <= v < evs.len() && #[trigger] sub[k] == evs[v],
    ensures
        acyclic(sub),
        no_zero_ids(sub),
{
    assert forall|k: int| 0 <= k < sub.len() implies !is_ancestor_of(sub, event_id(#[trigger] sub[k]), event_id(sub[k]))
        && event_id(sub[k]) != zeros32() by {
        let v = choose|v: int| 0 <= v < evs.len() && #[trigger] sub[k] == evs[v];
        assert(event_id(evs[v]) != zeros32());
        if is_ancestor_of(sub, event_id(sub[k]), event_id(sub[k])) {
            lemma_sub_ancestor(sub, evs, event_id(sub[k]), event_id(sub[k]));
            assert(!is_ancestor_of(evs, event_id(evs[v]), event_id(evs[v])));
        }
    }
}

/// An event of the log that truncation does not archive stands in the hot
/// log.
proof fn lemma_kept_is_hot(c: ChainView, tip: Seq<u8>, i: int)
    requires
        truncate_result(c, tip) is Ok,
        distinct_signed(c.events),
        0 <= i < c.events.len(),
        !archived(c.events, c.events[i], tip),
    ensures
        exists|k: int|
            0 <= k < truncate_result(c, tip)->Ok_0.0.events.len() && #[trigger] truncate_result(c, tip)->Ok_0.0.events[k]
                == c.events[i],
{
    let n = c.events.len() as int;
    let hot = truncate_result(c, tip)->Ok_0.0;
    lemma_split_places(c.events, tip, n, i);
    let h = split_upto(c.events, tip, n).1;
    let j = choose|j: int| 0 <= j < h.len() && #[trigger] h[j] == c.events[i];
    lemma_fold_has(h, h.len() as int, empty_chain(Some(tip)), false, false, j);
    lemma_hot_from_log(c, tip);
    let k = choose|k: int| 0 <= k < hot.events.len() && event_id(#[trigger] hot.events[k]) == event_id(c.events[i]);
    let v = choose|v: int| 0 <= v < c.events.len() && #[trigger] hot.events[k] == c.events[v];
    if v < i {
        assert(event_id(c.events[v]) != event_id(c.events[i]));
    } else if i < v {
        assert(event_id(c.events[i]) != event_id(c.events[v]));
    }
    assert(hot.events[k] == c.events[i]);
}

/// Two siblings that both stay hot are siblings in the hot log.
proof fn lemma_kept_siblings(c: ChainView, tip: Seq<u8>, i1: int, i2: int)
    requires
        truncate_result(c, tip) is Ok,
        distinct_signed(c.events),
        0 <= i1 < i2 < c.events.len(),
        c.events[i1].prev == c.events[i2].prev,
        !archived(c.events, c.events[i1], tip),
        !archived(c.events, c.events[i2], tip),
    ensures
        has_siblings(truncate_result(c, tip)->Ok_0.0.events),
{
    let hh = truncate_result(c, tip)->Ok_0.0.events;
    lemma_kept_is_hot(c, tip, i1);
    lemma_kept_is_hot(c, tip, i2);
    let k1 = choose|k: int| 0 <= k < hh.len() && #[trigger] hh[k] == c.events[i1];
    let k2 = choose|k: int| 0 <= k < hh.len() && #[trigger] hh[k] == c.events[i2];
    assert(event_id(c.events[i1]) != event_id(c.events[i2]));
    if k1 < k2 {
        assert(hh[k1].prev == hh[k2].prev);
    } else {
        assert(hh[k2].prev == hh[k1].prev);
    }
}

/// Two siblings are never both archived from an acyclic log.
proof fn lemma_siblings_not_both_archived(evs: Seq<EventView>, tip: Seq<u8>, i1: int, i2: int)
    requires
        distinct_signed(evs),
        acyclic(evs),
        no_zero_ids(evs),
        0 <= i1 < evs.len(),
        0 <= i2 < evs.len(),
        i1 != i2,
        evs[i1].prev == evs[i2].prev,
        archived(evs, evs[i1], tip),
    ensures
        !archived(evs, evs[i2], tip),
{
    let s1 = event_id(evs[i1]);
    let s2 = event_id(evs[i2]);
    if archived(evs, evs[i2], tip) {
        assert(s1 != zeros32() && s2 != zeros32());
        if i1 < i2 {
            assert(s1 != s2);
        } else {
            assert(s2 != s1);
        }
        lemma_one_line(evs, s1, s2, tip);
        if is_ancestor_of(evs, s1, s2) {
            lemma_sibling_off_line(evs, i1, i2, s2);
        }
        if is_ancestor_of(evs, s2, s1) {
            lemma_sibling_off_line(evs, i2, i1, s1);
        }
    }
}

/// A sibling kept hot beside an archived one leaves the hot log more than
/// one tip.
proof fn lemma_split_sibling_tips(c: ChainView, tip: Seq<u8>, i1: int, i2: int)
    requires
        truncate_result(c, tip) is Ok,
        distinct_signed(c.events),
        acyclic(c.events),
        no_zero_ids(c.events),
        0 <= i1 < c.events.len(),
        0 <= i2 < c.events.len(),
        i1 != i2,
        c.events[i1].prev == c.events[i2].prev,
        archived(c.events, c.events[i1], tip),
        !archived(c.events, c.events[i2], tip),
    ensures
        tips_of(truncate_result(c, tip)->Ok_0.0.events).len() > 1,
{
    let evs = c.events;
    let hh = truncate_result(c, tip)->Ok_0.0.events;
    let s2 = event_id(evs[i2]);
    lemma_hot_from_log(c, tip);
    lemma_sub_props(hh, evs);
    lemma_kept_is_hot(c, tip, i2);
    let xs = choose|k: int| 0 <= k < hh.len() && #[trigger] hh[k] == evs[i2];
    let xt = choose|k: int| 0 <= k < hh.len() && event_id(#[trigger] hh[k]) == tip;
    lemma_sibling_off_line(evs, i1, i2, tip);
    assert(xt != xs);
    assert(tip != zeros32() && s2 != zeros32()) by {
        assert(event_id(hh[xt]) != zeros32());
        assert(event_id(hh[xs]) != zeros32());
    }
    lemma_leaf_below(hh, xt, xt);
    let t1 = choose|t: int|
        0 <= t < hh.len() && !has_child(hh, event_id(#[trigger] hh[t])) && (t == xt || is_ancestor_of(
            hh,
            event_id(hh[xt]),
            event_id(hh[t]),
        ));
    lemma_leaf_below(hh, xs, xs);
    let t2 = choose|t: int|
        0 <= t < hh.len() && !has_child(hh, event_id(#[trigger] hh[t])) && (t == xs || is_ancestor_of(
            hh,
            event_id(hh[xs]),
            event_id(hh[t]),
        ));
    if t1 == t2 {
        let y = event_id(hh[t1]);
        if t1 == xt {
            lemma_sub_ancestor(hh, evs, s2, tip);
            assert(archived(evs, evs[i2], tip));
        } else if t2 == xs {
            lemma_sub_ancestor(hh, evs, tip, s2);
        } else {
            lemma_one_line(hh, tip, s2, y);
            if is_ancestor_of(hh, tip, s2) {
                lemma_sub_ancestor(hh, evs, tip, s2);
            }
            if is_ancestor_of(hh, s2, tip) {
                lemma_sub_ancestor(hh, evs, s2, tip);
                assert(archived(evs, evs[i2], tip));
            }
        }
    }
    if t1 < t2 {
        lemma_two_tips(hh, hh.len() as int, t1, t2);
    } else {
        lemma_two_tips(hh, hh.len() as int, t2, t1);
    }
}

proof fn lemma_tip_index(evs: Seq<EventView>, n: int)
    requires
        0 <= n <= evs.len(),
        tips_upto(evs, n).len() >= 1,
    ensures
        exists|a: int| 0 <= a < n && !has_child(evs, event_id(#[trigger] evs[a])),
    decreases n,
{
    if n > 0 && has_child(evs, event_id(evs[n - 1])) {
        lemma_tip_index(evs, n - 1);
    }
}

/// More than one tip means two events without a child.
proof fn lemma_tip_indices(evs: Seq<EventView>, n: int)
    requires
        0 <= n <= evs.len(),
        tips_upto(evs, n).len() >= 2,
    ensures
        exists|a: int, b: int|
            0 <= a < b < n && !has_child(evs, event_id(#[trigger] evs[a])) && !has_child(evs, event_id(#[trigger] evs[b])),
    decreases n,
{
    if has_child(evs, event_id(evs[n - 1])) {
        lemma_tip_indices(evs, n - 1);
    } else {
        lemma_tip_index(evs, n - 1);
        let a = choose|a: int| 0 <= a < n - 1 && !has_child(evs, event_id(#[trigger] evs[a]));
        assert(!has_child(evs, event_id(evs[a])) && !has_child(evs, event_id(evs[n - 1])));
    }
}

/// An event without a child is never archived, and stays a tip of the hot
/// log.
proof fn lemma_tip_kept(c: ChainView, tip: Seq<u8>, a: int)
    requires
        truncate_result(c, tip) is Ok,
        distinct_signed(c.events),
        0 <= a < c.events.len(),
        !has_child(c.events, event_id(c.events[a])),
    ensures
        exists|k: int|
            0 <= k < truncate_result(c, tip)->Ok_0.0.events.len() && #[trigger] truncate_result(c, tip)->Ok_0.0.events[k]
                == c.events[a] && !has_child(truncate_result(c, tip)->Ok_0.0.events, event_id(c.events[a])),
{
    let evs = c.events;
    let hh = truncate_result(c, tip)->Ok_0.0.events;
    let ida = event_id(evs[a]);
    if archived(evs, evs[a], tip) {
        lemma_ancestor_reaches(evs, ida, tip);
        let j = choose|j: nat| #[trigger] reaches_at(evs, ida, tip, j);
        lemma_index_of_id(evs, walk_at(evs, tip, j), 0);
        let k = index_of_id(evs, walk_at(evs, tip, j), 0)->0;
        assert(evs[k].prev == ida);
    }
    lemma_kept_is_hot(c, tip, a);
    lemma_hot_from_log(c, tip);
    if has_child(hh, ida) {
        let k = choose|k: int| 0 <= k < hh.len() && (#[trigger] hh[k]).prev == ida;
        let v = choose|v: int| 0 <= v < evs.len() && #[trigger] hh[k] == evs[v];
        assert(evs[v].prev == ida);
    }
}

/// Every tip of the log stays a tip of the hot log.
proof fn lemma_tips_kept(c: ChainView, tip: Seq<u8>)
    requires
        truncate_result(c, tip) is Ok,
        distinct_signed(c.events),
        tips_of(c.events).len() > 1,
    ensures
        tips_of(truncate_result(c, tip)->Ok_0.0.events).len() > 1,
{
    let evs = c.events;
    let hh = truncate_result(c, tip)->Ok_0.0.events;
    lemma_tip_indices(evs, evs.len() as int);
    let (a, b) = choose|a: int, b: int|
        0 <= a < b < evs.len() && !has_child(evs, event_id(#[trigger] evs[a])) && !has_child(evs, event_id(#[trigger] evs[b]));
    lemma_tip_kept(c, tip, a);
    lemma_tip_kept(c, tip, b);
    let ka = choose|k: int| 0 <= k < hh.len() && #[trigger] hh[k] == evs[a] && !has_child(hh, event_id(evs[a]));
    let kb = choose|k: int| 0 <= k < hh.len() && #[trigger] hh[k] == evs[b] && !has_child(hh, event_id(evs[b]));
    assert(event_id(evs[a]) != event_id(evs[b]));
    if ka < kb {
        lemma_two_tips(hh, hh.len() as int, ka, kb);
    } else {
        lemma_two_tips(hh, hh.len() as int, kb, ka);
    }
}

/// Truncation cannot hide a fork: a log of distinct events that sees one,
/// by a recorded fork or by more than one tip, leaves a hot log that sees one
/// too.
pub proof fn lemma_truncate_hides_no_fork(c: ChainView, tip: Seq<u8>)
    requires
        truncate_result(c, tip) is Ok,
        distinct_signed(c.events),
    ensures
        fork_seen(c) ==> fork_seen(truncate_result(c, tip)->Ok_0.0),
{
    lemma_truncate_keeps_tip_and_forks(c, tip);
    if tips_of(c.events).len() > 1 {
        lemma_tips_kept(c, tip);
    }
}

/// A replay of its own distinct events records a fork exactly when two of
/// them share a parent: so every log grown from a new or loaded log by
/// `append` does.
pub proof fn lemma_replay_forks_match(c: ChainView)
    requires
        replayable(c),
        distinct_signed(c.events),
    ensures
        forks_match(c),
{
    lemma_build_distinct(c.events, c.events.len() as int, c.truncated_tip, c.truncated_tip is None);
    assert(c.events.take(c.events.len() as int) =~= c.events);
}

/// Truncation neither hides nor invents a fork. Take a log that records a
/// fork exactly when two of its events share a parent (as a replay of its
/// own events does), in which no event is reached from itself by following
/// parents and none has the zero id. Then the hot log that truncation leaves
/// loads back seeing a fork exactly when it sees one itself, and both see one
/// whenever the log did.
pub proof fn lemma_truncation_keeps_fork_seen(c: ChainView, tip: Seq<u8>)
    requires
        truncate_result(c, tip) is Ok,
        tip.len() == 32,
        c.events.len() <= u32::MAX,
        forall|i: int| 0 <= i < c.events.len() ==> crate::model::event_sized(#[trigger] c.events[i])
            && event_encoding(c.events[i]).len() <= u32::MAX,
        distinct_signed(c.events),
        acyclic(c.events),
        no_zero_ids(c.events),
        forks_match(c),
    ensures
        fork_seen(chain_decode_result(chain_encoding(truncate_result(c, tip)->Ok_0.0))->Ok_0) == fork_seen(
            truncate_result(c, tip)->Ok_0.0,
        ),
        fork_seen(c) ==> fork_seen(truncate_result(c, tip)->Ok_0.0),
        fork_seen(c) ==> fork_seen(chain_decode_result(chain_encoding(truncate_result(c, tip)->Ok_0.0))->Ok_0),
{
    let evs = c.events;
    let hh = truncate_result(c, tip)->Ok_0.0.events;
    lemma_truncated_log_loads(c, tip);
    lemma_truncate_keeps_tip_and_forks(c, tip);
    lemma_hot_from_log(c, tip);
    if tips_of(evs).len() > 1 {
        lemma_tips_kept(c, tip);
    }
    if c.forks.len() > 0 {
        let (i1, i2) = choose|i: int, j: int| 0 <= i < j < evs.len() && (#[trigger] evs[i]).prev == (#[trigger] evs[j]).prev;
        if archived(evs, evs[i1], tip) {
            lemma_siblings_not_both_archived(evs, tip, i1, i2);
            lemma_split_sibling_tips(c, tip, i1, i2);
        } else if archived(evs, evs[i2], tip) {
            lemma_siblings_not_both_archived(evs, tip, i2, i1);
            lemma_split_sibling_tips(c, tip, i2, i1);
        } else {
            lemma_kept_siblings(c, tip, i1, i2);
        }
    }
    if has_siblings(hh) {
        let (a, b) = choose|i: int, j: int| 0 <= i < j < hh.len() && (#[trigger] hh[i]).prev == (#[trigger] hh[j]).prev;
        let va = choose|v: int| 0 <= v < evs.len() && #[trigger] hh[a] == evs[v];
        let vb = choose|v: int| 0 <= v < evs.len() && #[trigger] hh[b] == evs[v];
        assert(event_id(hh[a]) != event_id(hh[b]));
        if va < vb {
            assert(evs[va].prev == evs[vb].prev);
        } else {
            assert(evs[vb].prev == evs[va].prev);
        }
    }
}

/// The parents met walking up from `cur`, in turn, for at most `k` steps:
/// the walk stops at an event the log does not hold and after the zero id.
pub open spec fn walk_parents(evs: Seq<EventView>, cur: Seq<u8>, k: nat) -> Seq<Seq<u8>>
    decreases k,
{
    if k == 0 {
        Seq::empty()
    } else {
        match index_of_id(evs, cur, 0) {
            None => Seq::empty(),
            Some(i) => if evs[i].prev == zeros32() {
                seq![evs[i].prev]
            } else {
                seq![evs[i].prev] + walk_parents(evs, evs[i].prev, (k - 1) as nat)
            },
        }
    }
}

/// The parents met on a walk of `k` steps are exactly the ancestors found
/// within `k` steps.
pub proof fn lemma_walk_parents(evs: Seq<EventView>, cur: Seq<u8>, k: nat, m: Seq<u8>)
    ensures
        walk_parents(evs, cur, k).contains(m) == ancestor_within(evs, m, cur, k),
    decreases k,
{
    if k > 0 {
        match index_of_id(evs, cur, 0) {
            None => {},
            Some(i) => {
                let p = evs[i].prev;
                if p == zeros32() {
                    assert(seq![p][0] == p);
                    if seq![p].contains(m) {
                        let j = choose|j: int| 0 <= j < seq![p].len() && seq![p][j] == m;
                        assert(j == 0);
                    }
                } else {
                    lemma_walk_parents(evs, p, (k - 1) as nat, m);
                    let rest = walk_parents(evs, p, (k - 1) as nat);
                    let all = seq![p] + rest;
                    assert(all[0] == p);
                    if rest.contains(m) {
                        let j = choose|j: int| 0 <= j < rest.len() && rest[j] == m;
                        assert(all[j + 1] == m);
                    }
                    if all.contains(m) {
                        let j = choose|j: int| 0 <= j < all.len() && all[j] == m;
                        if j > 0 {
                            assert(rest[j - 1] == m);
                        }
                    }
                }
            },
        }
    }
}

/// Whether `id` is among `ids`.
fn id_listed(ids: &Vec<[u8; 32]>, id: &[u8; 32]) -> (r: bool)
    ensures
        r == ids_view(ids@).contains(id@),
{
    let mut i: usize = 0;
    while i < ids.len()
        invariant
            i <= ids@.len(),
            forall|j: int| 0 <= j < i ==> ids@[j]@ != id@,
        decreases ids@.len() - i,
    {
        if eq32(&ids[i], id) {
            proof {
                assert(ids_view(ids@)[i as int] == id@);
            }
            return true;
        }
        i = i + 1;
    }
    proof {
        if ids_view(ids@).contains(id@) {
            let j = choose|j: int| 0 <= j < ids_view(ids@).len() && ids_view(ids@)[j] == id@;
            assert(ids@[j]@ == id@);
        }
    }
    false
}

impl Chain {
    /// The ids met walking up from `desc`: each event's parent in turn, as
    /// long as the log holds the event, stopping after the zero id or after
    /// as many steps as the log holds events. They are the ancestors of
    /// `desc`.
    fn ancestors_of(&self, desc: &[u8; 32]) -> (out: Vec<[u8; 32]>)
        requires
            self.wf(),
        ensures
            ids_view(out@) == walk_parents(self@.events, desc@, self@.events.len()),
    {
        let n = self.events.len();
        let mut out: Vec<[u8; 32]> = Vec::new();
        let mut cur = *desc;
        let mut steps: usize = 0;
        proof {
            assert(n == self@.events.len());
            assert(ids_view(out@) =~= Seq::<Seq<u8>>::empty());
            assert(Seq::<Seq<u8>>::empty() + walk_parents(self@.events, cur@, n as nat) =~= walk_parents(
                self@.events,
                desc@,
                n as nat,
            ));
        }
        while steps < n
            invariant
                self.wf(),
                n == self@.events.len(),
                steps <= n,
                ids_view(out@) + walk_parents(self@.events, cur@, (n - steps) as nat) == walk_parents(
                    self@.events,
                    desc@,
                    n as nat,
                ),
            decreases n - steps,
        {
            let ghost before = ids_view(out@);
            let ghost rest = walk_parents(self@.events, cur@, (n - steps) as nat);
            let idx = match self.index_of_first(&cur) {
                Some(i) => i,
                None => {
                    proof {
                        assert(rest =~= Seq::<Seq<u8>>::empty());
                        assert(before + rest =~= before);
                    }
                    return out;
                },
            };
            let prev = self.events[idx].prev;
            proof {
                assert(self@.events[idx as int].prev == prev@);
                assert(parent_of(self@.events, cur@) == prev@);
            }
            out.push(prev);
            proof {
                assert(ids_view(out@) =~= before.push(prev@));
            }
            if is_zero32(&prev) {
                proof {
                    assert(rest =~= seq![prev@]);
                    assert(before.push(prev@) =~= before + rest);
                }
                return out;
            }
            proof {
                let rest2 = walk_parents(self@.events, prev@, (n - steps - 1) as nat);
                assert(rest =~= seq![prev@] + rest2);
                assert(before + rest =~= before.push(prev@) + rest2);
            }
            cur = prev;
            steps = steps + 1;
        }
        proof {
            assert(walk_parents(self@.events, cur@, 0) =~= Seq::<Seq<u8>>::empty());
            assert(ids_view(out@) + Seq::<Seq<u8>>::empty() =~= ids_view(out@));
        }
        out
    }

    fn index_of_first(&self, id: &[u8; 32]) -> (r: Option<usize>)
        requires
            self.wf(),
        ensures
            index_of_id(self@.events, id@, 0) == match r {
                Some(i) => Some(i as int),
                None => None::<int>,
            },
            r matches Some(i) ==> i < self@.events.len(),
    {
        let mut i: usize = 0;
        while i < self.ids.len()
            invariant
                self.wf(),
                i <= self.ids@.len(),
                index_of_id(self@.events, id@, 0) == index_of_id(self@.events, id@, i as int),
            decreases self.ids@.len() - i,
        {
            proof {
                assert(self@.events[i as int] == self.events@[i as int]@);
            }
            if eq32(&self.ids[i], id) {
                return Some(i);
            }
            i = i + 1;
        }
        None
    }

    /// Moves every strict ancestor of `covered_tip`, however far up, into the
    /// returned archive log. The tip, its descendants and any fork siblings
    /// stay hot, and the forks seen so far are kept, so truncation cannot hide
    /// a fork.
    pub fn truncate_below(&mut self, covered_tip: [u8; 32]) -> (res: Result<Chain, Error>)
        requires
            old(self).wf(),
        ensures
            final(self).wf(),
            match res {
                Ok(archive) => archive.wf() && truncate_result(old(self)@, covered_tip@) == Ok::<
                    (ChainView, ChainView),
                    Error,
                >((final(self)@, archive@)),
                Err(e) => truncate_result(old(self)@, covered_tip@) == Err::<(ChainView, ChainView), Error>(e)
                    && final(self)@ == old(self)@,
            },
            res is Ok <==> has_id(old(self)@.events, covered_tip@),
    {
        if !self.contains(&covered_tip) {
            return Err(Error::CoveredTipNotInHotLog);
        }
        let ghost evs = self@.events;
        let ghost tip = covered_tip@;
        let ghost a0 = empty_chain(self@.truncated_tip);
        let mut archive = Chain::new();
        archive.truncated_tip = self.truncated_tip;
        proof {
            self.lemma_wf();
            assert(archive@ == a0);
        }
        let ancestors = self.ancestors_of(&covered_tip);
        let mut hot_events: Vec<Event> = Vec::new();
        let mut i: usize = 0;
        proof {
            assert(hot_events@.map_values(|e: Event| e@) =~= Seq::<EventView>::empty());
        }
        while i < self.events.len()
            invariant
                self.wf(),
                archive.wf(),
                self@ == old(self)@,
                has_id(evs, tip),
                evs == self@.events,
                tip == covered_tip@,
                ids_view(ancestors@) == walk_parents(evs, tip, evs.len()),
                a0 == empty_chain(old(self)@.truncated_tip),
                i <= self.events@.len(),
                fold_insert(split_upto(evs, tip, i as int).0, split_upto(evs, tip, i as int).0.len() as int, a0, false, false)
                    == Ok::<ChainView, Error>(archive@),
                forall|k: int| 0 <= k < evs.len() ==> event_sig_result(#[trigger] evs[k]) is Ok,
                hot_events@.map_values(|e: Event| e@) == split_upto(evs, tip, i as int).1,
            decreases self.events@.len() - i,
        {
            let id = self.ids[i];
            let ghost e = evs[i as int];
            proof {
                assert(e == self.events@[i as int]@);
            }
            let ghost a = split_upto(evs, tip, i as int).0;
            proof {
                lemma_walk_parents(evs, tip, evs.len(), id@);
            }
            if !eq32(&id, &covered_tip) && id_listed(&ancestors, &id) {
                proof {
                    assert(archived(evs, e, tip));
                    lemma_fold_prefix(a, e, a.len() as int, a0, false, false);
                    assert(a.push(e)[a.len() as int] == e);
                }
                match archive.insert(self.events[i].duplicate(), false, false) {
                    Ok(_) => {},
                    Err(err) => {
                        proof {
                            reveal(insert_result);
                            assert(event_sig_result(evs[i as int]) is Ok);
                            assert(false);
                        }
                        return Err(err);
                    },
                }
            } else {
                proof {
                    assert(!archived(evs, e, tip));
                }
                let ghost before = hot_events@;
                hot_events.push(self.events[i].duplicate());
                proof {
                    assert(hot_events@.map_values(|e: Event| e@) =~= before.map_values(|e: Event| e@).push(e));
                }
            }
            i = i + 1;
        }
        proof {
            assert(evs.len() == i);
        }
        let ghost h = split_upto(evs, tip, evs.len() as int).1;
        proof {
            self.lemma_wf();
            lemma_split_from(evs, tip, evs.len() as int);
            assert forall|k: int| 0 <= k < h.len() implies event_sig_result(#[trigger] h[k]) is Ok by {
                let w = choose|w: int| 0 <= w < evs.len() && h[k] == evs[w];
                assert(event_sig_result(evs[w]) is Ok);
            }
        }
        let mut hot = Chain::new();
        hot.truncated_tip = Some(covered_tip);
        let ghost h0 = hot@;
        proof {
            assert(h0 == empty_chain(Some(tip)));
        }
        let mut j: usize = 0;
        while j < hot_events.len()
            invariant
                hot.wf(),
                hot_events@.map_values(|e: Event| e@) == h,
                j <= hot_events@.len(),
                fold_insert(h, j as int, h0, false, false) == Ok::<ChainView, Error>(hot@),
                forall|k: int| 0 <= k < h.len() ==> event_sig_result(#[trigger] h[k]) is Ok,
            decreases hot_events@.len() - j,
        {
            proof {
                assert(h[j as int] == hot_events@[j as int]@);
            }
            match hot.insert(hot_events[j].duplicate(), false, false) {
                Ok(_) => {},
                Err(err) => {
                    proof {
                        reveal(insert_result);
                        assert(false);
                    }
                    return Err(err);
                },
            }
            j = j + 1;
        }
        hot.forks = copy_forks(&self.forks);
        *self = hot;
        proof {
            assert(self@.events == fold_insert(h, h.len() as int, h0, false, false)->Ok_0.events);
        }
        Ok(archive)
    }
}

} // verus!
