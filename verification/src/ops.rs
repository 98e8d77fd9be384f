use vstd::prelude::*;

use crate::chain::{
    fork_seen, has_id, insert_result, log_has_step, step_for, step_within, member_of, members_of, members_view, screen_result,
    tips_of, Chain, ChainView, Member, MemberView,
};
use crate::codec::{
    be16, be64, hex_bytes, lemma_be16, lemma_be64, lp_bytes, tag_is, to_hex, u16_of, u64_of,
    Reader, Writer,
};
use crate::crypto::{
    open, open_result, sha256, sha256_of, EnvelopeView, RootSecret, KIND_EPHEMERAL, KIND_LEDGER,
    SUITE_CLASSICAL,
};
use crate::error::Error;
use crate::model::{
    bundle_decode_result, cred_id, event_decode_result, event_sign_result, opt_bytes,
    verify_bundle, verify_bundle_result, Bundle, BundleView, Credential, CredentialView, Event,
    EventView, RuntimeSecret, RuntimeView, T_ACCEPT, T_ACCEPT_REVERT, T_CRED_REVOKE,
    T_MEMBER_ADD, T_PROCEED, T_PROPOSE, T_PROPOSE_REVERT, T_SHARE,
};
use crate::plugin::{read_strings, strings_at, strings_lp, strings_view, write_strings};
use crate::text::ascii_chars;
use vstd::string::StringSliceAdditionalSpecFns;

verus! {

/// A vault's principal and current contact handle.
pub struct VaultOut {
    pub principal: [u8; 32],
    pub handle: String,
}

// ---------------------------------------------------------------------------
// Vault files
// ---------------------------------------------------------------------------

/// "WROT"
pub open spec fn root_tag() -> Seq<u8> {
    seq![87u8, 82u8, 79u8, 84u8]
}

/// The root key file: the tag, version 1, the secret.
pub open spec fn root_file(secret: Seq<u8>) -> Seq<u8> {
    root_tag() + be16(1) + secret
}

pub open spec fn root_file_result(b: Seq<u8>) -> Result<Seq<u8>, Error> {
    if b.len() < 4 {
        Err(Error::Truncated)
    } else if b.subrange(0, 4) != root_tag() {
        Err(Error::NotAVault)
    } else if b.len() < 6 {
        Err(Error::Truncated)
    } else if u16_of(b.subrange(4, 6)) != 1 {
        Err(Error::BadVaultVersion)
    } else if b.len() < 38 {
        Err(Error::Truncated)
    } else if b.len() > 38 {
        Err(Error::TrailingBytes)
    } else {
        Ok(b.subrange(6, 38))
    }
}

pub fn root_bytes(root: &RootSecret) -> (out: Vec<u8>)
    ensures
        out@ == root_file(root@),
{
    let mut w = Writer::new();
    w.bytes(&[87u8, 82u8, 79u8, 84u8]);
    w.u16(1);
    w.arr32(&root.to_bytes());
    proof {
        assert([87u8, 82u8, 79u8, 84u8]@ =~= root_tag());
        assert(w@ =~= root_file(root@));
    }
    w.finish()
}

/// Reads a root key file.
pub fn parse_root(bytes: &[u8]) -> (res: Result<RootSecret, Error>)
    ensures
        match res {
            Ok(root) => root_file_result(bytes@) == Ok::<Seq<u8>, Error>(root@),
            Err(e) => root_file_result(bytes@) == Err::<Seq<u8>, Error>(e),
        },
{
    let mut r = Reader::new(bytes);
    let magic = r.take(4)?;
    proof {
        assert([87u8, 82u8, 79u8, 84u8]@ =~= root_tag());
    }
    if !tag_is(magic, &[87u8, 82u8, 79u8, 84u8]) {
        return Err(Error::NotAVault);
    }
    let version = r.u16()?;
    proof {
        lemma_be16(version);
    }
    if version != 1 {
        return Err(Error::BadVaultVersion);
    }
    let secret = r.arr32()?;
    r.finish()?;
    Ok(RootSecret::from_bytes(&secret))
}

/// The vault's contact handles: the generation, the current handle and the
/// retired ones.
pub struct Handles {
    pub gen: u64,
    pub current: String,
    pub retired: Vec<String>,
}

/// "WHND"
pub open spec fn handles_tag() -> Seq<u8> {
    seq![87u8, 72u8, 78u8, 68u8]
}

pub open spec fn handles_file(gen: u64, current: Seq<char>, retired: Seq<Seq<char>>) -> Seq<u8> {
    handles_tag() + be16(1) + be64(gen) + lp_bytes(vstd::utf8::encode_utf8(current)) + crate::codec::be32(
        retired.len() as u32,
    ) + strings_lp(retired)
}

pub open spec fn handles_file_result(b: Seq<u8>) -> Result<(u64, Seq<char>, Seq<Seq<char>>), Error> {
    if b.len() < 4 {
        Err(Error::Truncated)
    } else if b.subrange(0, 4) != handles_tag() {
        Err(Error::NotAHandleFile)
    } else if b.len() < 6 {
        Err(Error::Truncated)
    } else if u16_of(b.subrange(4, 6)) != 1 {
        Err(Error::BadHandleVersion)
    } else if b.len() < 14 {
        Err(Error::Truncated)
    } else {
        match strings_at(b, 14, 1, Error::HandleUtf8) {
            Err(e) => Err(e),
            Ok((cur, p)) => if p + 4 > b.len() {
                Err(Error::Truncated)
            } else {
                match strings_at(b, p + 4, crate::codec::u32_of(b.subrange(p, p + 4)) as nat, Error::HandleUtf8) {
                    Err(e) => Err(e),
                    Ok((ret, q)) => if q != b.len() {
                        Err(Error::TrailingBytes)
                    } else {
                        Ok((u64_of(b.subrange(6, 14)), cur[0], ret))
                    },
                }
            },
        }
    }
}

/// A stored root key file reads back as the key.
pub proof fn lemma_root_roundtrip(secret: Seq<u8>)
    requires
        secret.len() == 32,
    ensures
        root_file_result(root_file(secret)) == Ok::<Seq<u8>, Error>(secret),
{
    let b = root_file(secret);
    lemma_be16(1);
    assert(b.subrange(0, 4) =~= root_tag());
    assert(b.subrange(4, 6) =~= be16(1));
    assert(b.subrange(6, 38) =~= secret);
}

/// A stored handles file reads back as the generation, the current handle
/// and the retired ones.
pub proof fn lemma_handles_roundtrip(gen: u64, current: Seq<char>, retired: Seq<Seq<char>>)
    requires
        vstd::utf8::encode_utf8(current).len() <= u32::MAX,
        retired.len() <= u32::MAX,
        forall|i: int| 0 <= i < retired.len() ==> (#[trigger] vstd::utf8::encode_utf8(retired[i])).len() <= u32::MAX,
    ensures
        handles_file_result(handles_file(gen, current, retired)) == Ok::<(u64, Seq<char>, Seq<Seq<char>>), Error>(
            (gen, current, retired),
        ),
{
    let b = handles_file(gen, current, retired);
    let one = seq![current];
    assert(one.drop_last() =~= Seq::<Seq<char>>::empty());
    assert(one.last() == current);
    assert(strings_lp(one.drop_last()) =~= Seq::<u8>::empty());
    assert(strings_lp(one) == strings_lp(one.drop_last()) + lp_bytes(vstd::utf8::encode_utf8(one.last())));
    assert(strings_lp(one) =~= lp_bytes(vstd::utf8::encode_utf8(current)));
    let cl = strings_lp(one).len() as int;
    let rl = strings_lp(retired).len() as int;
    lemma_be16(1);
    lemma_be64(gen);
    crate::codec::lemma_be32(retired.len() as u32);
    assert(b.subrange(0, 4) =~= handles_tag());
    assert(b.subrange(4, 6) =~= be16(1));
    assert(b.subrange(6, 14) =~= be64(gen));
    assert(b.subrange(14, 14 + cl) =~= strings_lp(one));
    assert forall|i: int| 0 <= i < one.len() implies (#[trigger] vstd::utf8::encode_utf8(one[i])).len() <= u32::MAX by {
        assert(one[i] == current);
    }
    crate::plugin::lemma_strings_roundtrip(b, 14, one, Error::HandleUtf8);
    let p = 14 + cl;
    assert(b.subrange(p, p + 4) =~= crate::codec::be32(retired.len() as u32));
    assert(b.subrange(p + 4, p + 4 + rl) =~= strings_lp(retired));
    crate::plugin::lemma_strings_roundtrip(b, p + 4, retired, Error::HandleUtf8);
    assert(b.len() == p + 4 + rl);
}

impl Handles {
    pub fn encode(&self) -> (out: Vec<u8>)
        ensures
            out@ == handles_file(self.gen, self.current@, strings_view(self.retired@)),
    {
        let mut w = Writer::new();
        w.bytes(&[87u8, 72u8, 78u8, 68u8]);
        w.u16(1);
        w.u64(self.gen);
        w.lp(self.current.as_str().as_bytes());
        w.u32(self.retired.len() as u32);
        write_strings(&mut w, self.retired.as_slice());
        proof {
            assert([87u8, 72u8, 78u8, 68u8]@ =~= handles_tag());
            assert(w@ =~= handles_file(self.gen, self.current@, strings_view(self.retired@)));
        }
        w.finish()
    }

    pub fn decode(bytes: &[u8]) -> (res: Result<Self, Error>)
        ensures
            match res {
                Ok(h) => handles_file_result(bytes@) == Ok::<(u64, Seq<char>, Seq<Seq<char>>), Error>(
                    (h.gen, h.current@, strings_view(h.retired@)),
                ),
                Err(e) => handles_file_result(bytes@) == Err::<(u64, Seq<char>, Seq<Seq<char>>), Error>(e),
            },
    {
        let mut r = Reader::new(bytes);
        let magic = r.take(4)?;
        proof {
            assert([87u8, 72u8, 78u8, 68u8]@ =~= handles_tag());
        }
        if !tag_is(magic, &[87u8, 72u8, 78u8, 68u8]) {
            return Err(Error::NotAHandleFile);
        }
        let version = r.u16()?;
        proof {
            lemma_be16(version);
        }
        if version != 1 {
            return Err(Error::BadHandleVersion);
        }
        let gen = r.u64()?;
        proof {
            lemma_be64(gen);
        }
        let mut cur = read_strings(&mut r, 1, Error::HandleUtf8)?;
        let n = r.u32()?;
        proof {
            crate::codec::lemma_be32(n);
        }
        let retired = read_strings(&mut r, n, Error::HandleUtf8)?;
        r.finish()?;
        proof {
            crate::plugin::lemma_strings_at_len(bytes@, 14, 1, Error::HandleUtf8);
            assert(strings_view(cur@).len() == 1);
        }
        let current = cur.pop().unwrap();
        Ok(Handles { gen, current, retired })
    }
}

/// A fresh contact handle: the hex of the first 16 bytes of a random id.
pub fn new_handle(fresh: &[u8; 32]) -> (h: String)
    ensures
        h@ == ascii_chars(hex_bytes(fresh@.subrange(0, 16))),
{
    to_hex(vstd::slice::slice_subrange(fresh.as_slice(), 0, 16))
}

/// The handles after a rotation to `fresh`: the current handle retires and
/// the generation steps up, stopping at its largest value.
pub fn rotate_handles(handles: Handles, fresh: String) -> (out: Handles)
    ensures
        out.gen == (if handles.gen == u64::MAX { u64::MAX } else { (handles.gen + 1) as u64 }),
        out.current@ == fresh@,
        strings_view(out.retired@) == strings_view(handles.retired@).push(handles.current@),
{
    let mut retired = handles.retired;
    let ghost before = retired@;
    let cur = handles.current;
    let ghost cur_view = cur@;
    retired.push(cur);
    proof {
        assert(strings_view(retired@) =~= strings_view(before).push(cur_view));
    }
    Handles { gen: if handles.gen == u64::MAX { u64::MAX } else { handles.gen + 1 }, current: fresh, retired }
}

/// What `vault_info` reports.
pub fn vault_info_of(root: &RootSecret, handles: &Handles) -> (out: VaultOut)
    ensures
        out.principal@ == sha256_of(crate::crypto::ed25519_public_of(root@)),
        out.handle@ == handles.current@,
{
    VaultOut { principal: root.principal_id(), handle: handles.current.clone() }
}

// ---------------------------------------------------------------------------
// Channel views
// ---------------------------------------------------------------------------

/// The name an export lists for an event type.
pub open spec fn event_type_label(typ: u16) -> Seq<char> {
    if typ == T_MEMBER_ADD {
        "member_add"@
    } else if typ == T_PROPOSE {
        "propose"@
    } else if typ == T_ACCEPT {
        "accept"@
    } else if typ == T_PROCEED {
        "proceed"@
    } else if typ == T_PROPOSE_REVERT {
        "propose_revert"@
    } else if typ == T_ACCEPT_REVERT {
        "accept_revert"@
    } else if typ == T_SHARE {
        "share_identity"@
    } else if typ == T_CRED_REVOKE {
        "cred_revoke"@
    } else {
        "event"@
    }
}

pub fn event_type_name(typ: u16) -> (out: &'static str)
    ensures
        out@ == event_type_label(typ),
{
    if typ == T_MEMBER_ADD {
        "member_add"
    } else if typ == T_PROPOSE {
        "propose"
    } else if typ == T_ACCEPT {
        "accept"
    } else if typ == T_PROCEED {
        "proceed"
    } else if typ == T_PROPOSE_REVERT {
        "propose_revert"
    } else if typ == T_ACCEPT_REVERT {
        "accept_revert"
    } else if typ == T_SHARE {
        "share_identity"
    } else if typ == T_CRED_REVOKE {
        "cred_revoke"
    } else {
        "event"
    }
}

/// The event type names of a log, one per line; identity shares are left
/// out unless asked for.
pub open spec fn merge_text(evs: Seq<EventView>, include_pii: bool) -> Seq<u8>
    decreases evs.len(),
{
    if evs.len() == 0 {
        Seq::empty()
    } else {
        let e = evs.last();
        let rest = merge_text(evs.drop_last(), include_pii);
        if e.typ == T_SHARE && !include_pii {
            rest
        } else {
            rest + vstd::utf8::encode_utf8(event_type_label(e.typ)) + "\n".spec_bytes()
        }
    }
}

pub fn export_merge(chain: &Chain, include_pii: bool) -> (out: String)
    ensures
        vstd::utf8::encode_utf8(out@) == merge_text(chain@.events, include_pii),
{
    let ghost evs = chain@.events;
    let events = chain.events();
    let mut b: Vec<u8> = Vec::new();
    proof {
        assert(b@ =~= vstd::utf8::encode_utf8(Seq::<char>::empty()));
    }
    let mut i: usize = 0;
    while i < events.len()
        invariant
            evs == events@.map_values(|e: Event| e@),
            i <= events@.len(),
            vstd::utf8::valid_utf8(b@),
            b@ == merge_text(evs.subrange(0, i as int), include_pii),
        decreases events@.len() - i,
    {
        let typ = events[i].typ;
        proof {
            let q = evs.subrange(0, i + 1);
            assert(q.drop_last() =~= evs.subrange(0, i as int));
            assert(q.last() == events@[i as int]@);
        }
        if !(typ == T_SHARE && !include_pii) {
            crate::metrics::push_str_bytes(&mut b, event_type_name(typ));
            crate::metrics::push_str_bytes(&mut b, "\n");
        }
        i = i + 1;
    }
    proof {
        assert(evs.subrange(0, i as int) =~= evs);
    }
    crate::text::string_of_utf8(b)
}

pub fn explain_channel(chain: &Chain) -> (out: String)
    ensures
        vstd::utf8::encode_utf8(out@) == crate::explain::explain_text(chain@.events),
{
    crate::explain::events(chain.events())
}

/// Whether the local log, or the peer's log when one is given, shows a fork.
pub fn fork_yes(local: &Chain, peer: Option<&Chain>) -> (r: bool)
    requires
        local.wf(),
        peer matches Some(p) ==> p.wf(),
    ensures
        r == (fork_seen(local@) || (peer matches Some(p) && fork_seen(p@))),
{
    let mut yes = local.fork_detected();
    match peer {
        Some(p) => {
            yes = yes || p.fork_detected();
        },
        None => {},
    }
    yes
}

/// Checks a receipt bundle offline.
pub fn verify_receipt(bundle: &[u8], content: Option<&[u8]>) -> (res: Result<(), Error>)
    ensures
        res == match bundle_decode_result(bundle@) {
            Err(e) => Err(e),
            Ok(b) => verify_bundle_result(b, opt_bytes(content)),
        },
{
    let decoded = Bundle::decode(bundle)?;
    verify_bundle(&decoded, content)
}

// ---------------------------------------------------------------------------
// Local events
// ---------------------------------------------------------------------------

pub open spec fn zeros64() -> Seq<u8> {
    Seq::new(64, |i: int| 0u8)
}

/// The unsigned event a runtime writes: suite 1, its credential as signer.
pub open spec fn local_event(r: RuntimeView, channel: Seq<u8>, prev: Seq<u8>, typ: u16, body: Seq<u8>) -> EventView {
    EventView {
        suite: SUITE_CLASSICAL,
        channel_id: channel,
        prev,
        typ,
        signer_cred_id: cred_id(r.cred),
        signer_pub: r.cred.ed25519_pub,
        body,
        sig: zeros64(),
    }
}

/// An event this runtime signs.
pub fn sign_local(runtime: &RuntimeSecret, channel: &[u8; 32], prev: &[u8; 32], typ: u16, body: Vec<u8>) -> (res: Result<Event, Error>)
    ensures
        match res {
            Ok(e) => event_sign_result(local_event(runtime@, channel@, prev@, typ, body@), runtime@)
                == Ok::<EventView, Error>(e@),
            Err(x) => event_sign_result(local_event(runtime@, channel@, prev@, typ, body@), runtime@)
                == Err::<EventView, Error>(x),
        },
{
    let ghost bv = body@;
    let sig = [0u8; 64];
    let e = Event {
        suite: SUITE_CLASSICAL,
        channel_id: *channel,
        prev: *prev,
        typ,
        signer_cred_id: runtime.cred_id(),
        signer_pub: runtime.cred.ed25519_pub,
        body,
        sig,
    };
    proof {
        assert(sig@ =~= zeros64()) by {
            assert(forall|i: int| 0 <= i < 64 ==> sig@[i] == 0u8);
        }
        assert(e@ == local_event(runtime@, channel@, prev@, typ, bv));
    }
    e.sign(runtime)
}

/// Appending a new local event after the log's one tip: signed by the
/// runtime, admitted by the log at `now`, then taken in.
pub open spec fn local_append_result(c: ChainView, r: RuntimeView, channel: Seq<u8>, typ: u16, body: Seq<u8>, now: u64) -> Result<
    (ChainView, EventView),
    Error,
> {
    let tips = tips_of(c.events);
    if tips.len() == 0 {
        Err(Error::EmptyChainHasNoTip)
    } else if tips.len() > 1 {
        Err(Error::ForkMoreThanOneTip)
    } else {
        match event_sign_result(local_event(r, channel, tips[0], typ, body), r) {
            Err(x) => Err(x),
            Ok(e) => match screen_result(c.events, e, now) {
                Err(x) => Err(x),
                Ok(_) => match insert_result(c, e, true, true).1 {
                    Err(x) => Err(x),
                    Ok(_) => Ok((insert_result(c, e, true, true).0, e)),
                },
            },
        }
    }
}

fn append_local(chain: &mut Chain, runtime: &RuntimeSecret, channel: &[u8; 32], typ: u16, body: Vec<u8>, now: u64) -> (res: Result<Event, Error>)
    requires
        old(chain).wf(),
    ensures
        final(chain).wf(),
        match res {
            Ok(e) => local_append_result(old(chain)@, runtime@, channel@, typ, body@, now) == Ok::<(ChainView, EventView), Error>((final(chain)@, e@)),
            Err(x) => local_append_result(old(chain)@, runtime@, channel@, typ, body@, now) == Err::<(ChainView, EventView), Error>(x)
                && final(chain)@ == old(chain)@,
        },
{
    let prev = chain.sole_tip()?;
    let event = sign_local(runtime, channel, &prev, typ, body)?;
    chain.screen(&event, now)?;
    let kept = event.duplicate();
    chain.append(event)?;
    Ok(kept)
}

/// The action words of a receipt step.
pub open spec fn action_type(action: Seq<char>) -> Option<u16> {
    if action == "propose"@ {
        Some(T_PROPOSE)
    } else if action == "accept"@ {
        Some(T_ACCEPT)
    } else if action == "proceed"@ {
        Some(T_PROCEED)
    } else if action == "propose-revert"@ {
        Some(T_PROPOSE_REVERT)
    } else if action == "accept-revert"@ {
        Some(T_ACCEPT_REVERT)
    } else {
        None
    }
}

/// The first propose of `proposal` at or after `i`.
pub open spec fn first_propose(evs: Seq<EventView>, proposal: Seq<u8>, i: int) -> Option<EventView>
    decreases evs.len() - i,
{
    if i < 0 || i >= evs.len() {
        None
    } else if evs[i].typ == T_PROPOSE && (crate::model::proposal_result(evs[i].body) matches Ok((p, _h)) && p == proposal) {
        Some(evs[i])
    } else {
        first_propose(evs, proposal, i + 1)
    }
}

/// Some accept in the log names `proposal`.
pub open spec fn has_accept(evs: Seq<EventView>, proposal: Seq<u8>) -> bool {
    exists|i: int| 0 <= i < evs.len() && (#[trigger] evs[i]).typ == T_ACCEPT
        && crate::model::id_body_result(evs[i].body) == Ok::<Seq<u8>, Error>(proposal)
}

/// The proposal id, content hash and body of a receipt step, or why the
/// step is refused: a forked log takes no new local event; a propose needs
/// content (its id is `fresh` unless one is given); any other step needs a
/// known proposal; a proceed needs an accept and must come from the proposer.
pub open spec fn receipt_plan(c: ChainView, r: RuntimeView, typ: u16, proposal: Option<Seq<u8>>, content: Option<Seq<u8>>, fresh: Seq<u8>) -> Result<
    (Seq<u8>, Seq<u8>, Seq<u8>),
    Error,
> {
    if fork_seen(c) {
        Err(Error::ForkRefusingNewEvent)
    } else if typ != T_PROPOSE && proposal is None {
        Err(Error::MissingProposal)
    } else if typ == T_PROPOSE && content is None {
        Err(Error::ProposeRequiresContent)
    } else {
        let pid = match proposal {
            Some(p) => p,
            None => fresh,
        };
        let hash = if typ == T_PROPOSE {
            sha256_of(content->0)
        } else {
            crate::crypto::zeros32()
        };
        if typ != T_PROPOSE && first_propose(c.events, pid, 0) is None {
            Err(Error::UnknownProposal)
        } else if typ == T_PROCEED && !has_accept(c.events, pid) {
            Err(Error::ProceedWithoutAccept)
        } else if typ == T_PROCEED && first_propose(c.events, pid, 0)->0.signer_cred_id != cred_id(r.cred) {
            Err(Error::ProceedMustBeProposer)
        } else {
            Ok((pid, hash, if typ == T_PROPOSE { crate::model::proposal_encoding(pid, hash) } else { pid }))
        }
    }
}

/// The first propose of `proposal` at or after `j` is the earliest such
/// event there.
proof fn lemma_first_propose_found(evs: Seq<EventView>, proposal: Seq<u8>, j: int)
    requires
        0 <= j,
        first_propose(evs, proposal, j) is Some,
    ensures
        exists|i: int|
            j <= i < evs.len() && evs[i] == first_propose(evs, proposal, j)->0 && #[trigger] step_for(
                evs[i],
                T_PROPOSE,
                proposal,
            ) && forall|k: int| j <= k < i ==> !step_for(#[trigger] evs[k], T_PROPOSE, proposal),
    decreases evs.len() - j,
{
    if step_for(evs[j], T_PROPOSE, proposal) {
        assert(step_for(evs[j], T_PROPOSE, proposal));
    } else {
        lemma_first_propose_found(evs, proposal, j + 1);
        let i = choose|i: int|
            j + 1 <= i < evs.len() && evs[i] == first_propose(evs, proposal, j + 1)->0 && #[trigger] step_for(
                evs[i],
                T_PROPOSE,
                proposal,
            ) && forall|k: int| j + 1 <= k < i ==> !step_for(#[trigger] evs[k], T_PROPOSE, proposal);
        assert forall|k: int| j <= k < i implies !step_for(#[trigger] evs[k], T_PROPOSE, proposal) by {
            if k > j {
            }
        }
    }
}

/// What a receipt step needs of the log it is taken on. No fork is seen. A
/// propose comes with content. Any other step names a proposal that the log
/// holds a propose for. A proceed needs an accept of that proposal in the
/// log, and its runtime must be the signer of the proposal's first propose.
/// A propose carries the proposal id (the given one, else `fresh`) and the
/// content's hash; any other step carries the proposal id alone.
pub proof fn lemma_receipt_plan_law(
    c: ChainView,
    r: RuntimeView,
    typ: u16,
    proposal: Option<Seq<u8>>,
    content: Option<Seq<u8>>,
    fresh: Seq<u8>,
)
    requires
        receipt_plan(c, r, typ, proposal, content, fresh) is Ok,
    ensures
        !fork_seen(c),
        typ == T_PROPOSE ==> content is Some,
        typ != T_PROPOSE ==> (proposal matches Some(pp) && log_has_step(c.events, T_PROPOSE, pp)),
        typ == T_PROCEED ==> (proposal matches Some(pp) && log_has_step(c.events, T_ACCEPT, pp)),
        typ == T_PROCEED ==> (proposal matches Some(pp) && exists|i: int|
            0 <= i < c.events.len() && #[trigger] step_for(c.events[i], T_PROPOSE, pp) && c.events[i].signer_cred_id
                == cred_id(r.cred) && forall|k: int| 0 <= k < i ==> !step_for(#[trigger] c.events[k], T_PROPOSE, pp)),
        typ == T_PROPOSE ==> (receipt_plan(c, r, typ, proposal, content, fresh) matches Ok((pid, hash, body)) && pid
            == (match proposal {
            Some(p) => p,
            None => fresh,
        }) && hash == sha256_of(content->0) && body == crate::model::proposal_encoding(pid, hash)),
        typ != T_PROPOSE ==> (receipt_plan(c, r, typ, proposal, content, fresh) matches Ok((pid, hash, body)) && pid
            == proposal->0 && hash == crate::crypto::zeros32() && body == pid),
{
    if typ != T_PROPOSE {
        let pp = proposal->0;
        lemma_first_propose_found(c.events, pp, 0);
        let i = choose|i: int|
            0 <= i < c.events.len() && c.events[i] == first_propose(c.events, pp, 0)->0 && #[trigger] step_for(
                c.events[i],
                T_PROPOSE,
                pp,
            ) && forall|k: int| 0 <= k < i ==> !step_for(#[trigger] c.events[k], T_PROPOSE, pp);
        assert(step_within(c.events, T_PROPOSE, pp, c.events.len() as int));
        if typ == T_PROCEED {
            let a = choose|a: int| 0 <= a < c.events.len() && (#[trigger] c.events[a]).typ == T_ACCEPT
                && crate::model::id_body_result(c.events[a].body) == Ok::<Seq<u8>, Error>(pp);
            assert(step_for(c.events[a], T_ACCEPT, pp));
            assert(step_within(c.events, T_ACCEPT, pp, c.events.len() as int));
        }
    }
}

fn find_propose(chain: &Chain, proposal: &[u8; 32]) -> (r: Option<Event>)
    ensures
        match first_propose(chain@.events, proposal@, 0) {
            Some(e) => r matches Some(x) && x@ == e,
            None => r is None,
        },
{
    let events = chain.events();
    let ghost evs = chain@.events;
    let mut i: usize = 0;
    while i < events.len()
        invariant
            evs == events@.map_values(|e: Event| e@),
            evs == chain@.events,
            i <= events@.len(),
            first_propose(evs, proposal@, 0) == first_propose(evs, proposal@, i as int),
        decreases events@.len() - i,
    {
        proof {
            assert(evs[i as int] == events@[i as int]@);
        }
        if events[i].typ == T_PROPOSE {
            match crate::model::parse_proposal(events[i].body.as_slice()) {
                Ok((p, _h)) => {
                    if crate::codec::eq32(&p, proposal) {
                        proof {
                            assert(first_propose(evs, proposal@, i as int) == Some(evs[i as int]));
                        }
                        return Some(events[i].duplicate());
                    }
                },
                Err(_) => {},
            }
        }
        i = i + 1;
    }
    None
}

fn any_accept(chain: &Chain, proposal: &[u8; 32]) -> (r: bool)
    ensures
        r == has_accept(chain@.events, proposal@),
{
    let events = chain.events();
    let ghost evs = chain@.events;
    let mut i: usize = 0;
    while i < events.len()
        invariant
            evs == events@.map_values(|e: Event| e@),
            evs == chain@.events,
            i <= events@.len(),
            forall|k: int| 0 <= k < i ==> !((#[trigger] evs[k]).typ == T_ACCEPT
                && crate::model::id_body_result(evs[k].body) == Ok::<Seq<u8>, Error>(proposal@)),
        decreases events@.len() - i,
    {
        proof {
            assert(evs[i as int] == events@[i as int]@);
        }
        if events[i].typ == T_ACCEPT {
            match parse_id_body_opt(events[i].body.as_slice()) {
                Some(id) => {
                    if crate::codec::eq32(&id, proposal) {
                        proof {
                            assert(evs[i as int].typ == T_ACCEPT && crate::model::id_body_result(evs[i as int].body)
                                == Ok::<Seq<u8>, Error>(proposal@));
                        }
                        return true;
                    }
                },
                None => {},
            }
        }
        i = i + 1;
    }
    false
}

fn parse_id_body_opt(body: &[u8]) -> (r: Option<[u8; 32]>)
    ensures
        match crate::model::id_body_result(body@) {
            Ok(id) => r matches Some(x) && x@ == id,
            Err(_) => r is None,
        },
{
    match crate::model::parse_id_body(body) {
        Ok(x) => Some(x),
        Err(_) => None,
    }
}

fn receipt_type(action: &str) -> (r: Option<u16>)
    ensures
        r == action_type(action@),
{
    if crate::text::str_eq(action, "propose") {
        Some(T_PROPOSE)
    } else if crate::text::str_eq(action, "accept") {
        Some(T_ACCEPT)
    } else if crate::text::str_eq(action, "proceed") {
        Some(T_PROCEED)
    } else if crate::text::str_eq(action, "propose-revert") {
        Some(T_PROPOSE_REVERT)
    } else if crate::text::str_eq(action, "accept-revert") {
        Some(T_ACCEPT_REVERT)
    } else {
        None
    }
}

fn plan_receipt(
    chain: &Chain,
    runtime: &RuntimeSecret,
    typ: u16,
    proposal: Option<[u8; 32]>,
    content: Option<&[u8]>,
    fresh: [u8; 32],
) -> (res: Result<([u8; 32], [u8; 32], Vec<u8>), Error>)
    requires
        chain.wf(),
    ensures
        match res {
            Ok((p, h, b)) => receipt_plan(
                chain@,
                runtime@,
                typ,
                match proposal { Some(p) => Some(p@), None => None },
                opt_bytes(content),
                fresh@,
            ) == Ok::<(Seq<u8>, Seq<u8>, Seq<u8>), Error>((p@, h@, b@)),
            Err(x) => receipt_plan(
                chain@,
                runtime@,
                typ,
                match proposal { Some(p) => Some(p@), None => None },
                opt_bytes(content),
                fresh@,
            ) == Err::<(Seq<u8>, Seq<u8>, Seq<u8>), Error>(x),
        },
{
    if chain.fork_detected() {
        return Err(Error::ForkRefusingNewEvent);
    }
    if typ != T_PROPOSE && proposal.is_none() {
        return Err(Error::MissingProposal);
    }
    if typ == T_PROPOSE && content.is_none() {
        return Err(Error::ProposeRequiresContent);
    }
    let pid: [u8; 32] = match proposal {
        Some(p) => p,
        None => fresh,
    };
    let hash: [u8; 32] = if typ == T_PROPOSE {
        match content {
            Some(bytes) => sha256(bytes),
            None => fresh,
        }
    } else {
        let z = [0u8; 32];
        proof {
            assert(z@ =~= crate::crypto::zeros32()) by {
                assert(forall|i: int| 0 <= i < 32 ==> z@[i] == 0u8);
            }
        }
        z
    };
    if typ != T_PROPOSE {
        let first = find_propose(chain, &pid);
        match first {
            None => return Err(Error::UnknownProposal),
            Some(e) => {
                if typ == T_PROCEED {
                    if !any_accept(chain, &pid) {
                        return Err(Error::ProceedWithoutAccept);
                    }
                    if !crate::codec::eq32(&e.signer_cred_id, &runtime.cred_id()) {
                        return Err(Error::ProceedMustBeProposer);
                    }
                }
            },
        }
    }
    let body = if typ == T_PROPOSE {
        crate::model::proposal_body(&pid, &hash)
    } else {
        crate::model::id_body(&pid)
    };
    Ok((pid, hash, body))
}

/// A receipt step by this runtime on a channel's log: propose (with the
/// content, under `proposal` or else `fresh`), accept, proceed,
/// propose-revert or accept-revert. On success the log holds the new event,
/// which is returned with the proposal id and the content hash.
pub fn receipt(
    chain: &mut Chain,
    runtime: &RuntimeSecret,
    channel: &[u8; 32],
    action: &str,
    proposal: Option<[u8; 32]>,
    content: Option<&[u8]>,
    fresh: [u8; 32],
    now: u64,
) -> (res: Result<(Event, [u8; 32], [u8; 32]), Error>)
    requires
        old(chain).wf(),
    ensures
        final(chain).wf(),
        action_type(action@) is None ==> (res matches Err(Error::UnknownReceiptAction(a)) && a@ == action@),
        action_type(action@) matches Some(typ) ==> match receipt_plan(
            old(chain)@,
            runtime@,
            typ,
            match proposal { Some(p) => Some(p@), None => None },
            opt_bytes(content),
            fresh@,
        ) {
            Err(x) => res == Err::<(Event, [u8; 32], [u8; 32]), Error>(x),
            Ok((pid, hash, body)) => match local_append_result(old(chain)@, runtime@, channel@, typ, body, now) {
                Err(x) => res == Err::<(Event, [u8; 32], [u8; 32]), Error>(x),
                Ok((c2, e)) => res matches Ok((ev, p, h)) && ev@ == e && p@ == pid && h@ == hash
                    && final(chain)@ == c2,
            },
        },
        res is Err ==> final(chain)@ == old(chain)@,
        action_type(action@) == Some(T_PROCEED) && res is Ok ==> (proposal matches Some(pp) && log_has_step(
            old(chain)@.events,
            T_ACCEPT,
            pp@,
        )),
{
    let typ = match receipt_type(action) {
        Some(t) => t,
        None => return Err(Error::UnknownReceiptAction(action.to_owned())),
    };
    let (pid, hash, body) = plan_receipt(chain, runtime, typ, proposal, content, fresh)?;
    proof {
        lemma_receipt_plan_law(
            chain@,
            runtime@,
            typ,
            match proposal { Some(p) => Some(p@), None => None },
            opt_bytes(content),
            fresh@,
        );
    }
    let event = append_local(chain, runtime, channel, typ, body, now)?;
    Ok((event, pid, hash))
}

/// The distinct members of the log other than `me`, each with its latest
/// grant, in the order of those latest grants.
pub open spec fn others_upto(ms: Seq<MemberView>, me: Seq<u8>, n: int) -> Seq<CredentialView>
    decreases n,
{
    if n <= 0 {
        Seq::empty()
    } else {
        let rest = others_upto(ms, me, n - 1);
        let m = ms[n - 1];
        if m.id != me && member_of(ms, m.id) == Some(m) && last_of_id(ms, n - 1) {
            rest.push(m.cred)
        } else {
            rest
        }
    }
}

/// Entry `i` is the last one for its credential.
pub open spec fn last_of_id(ms: Seq<MemberView>, i: int) -> bool {
    forall|j: int| i < j < ms.len() ==> (#[trigger] ms[j]).id != ms[i].id
}

pub open spec fn others_result(evs: Seq<EventView>, me: Seq<u8>) -> Result<Seq<CredentialView>, Error> {
    match members_of(evs) {
        Err(e) => Err(e),
        Ok(ms) => Ok(others_upto(ms, me, ms.len() as int)),
    }
}

pub open spec fn creds_view(v: Seq<Credential>) -> Seq<CredentialView> {
    v.map_values(|c: Credential| c@)
}

/// The credentials of the other members.
pub fn others(chain: &Chain, me: &[u8; 32]) -> (res: Result<Vec<Credential>, Error>)
    ensures
        match res {
            Ok(v) => others_result(chain@.events, me@) == Ok::<Seq<CredentialView>, Error>(creds_view(v@)),
            Err(e) => others_result(chain@.events, me@) == Err::<Seq<CredentialView>, Error>(e),
        },
{
    let members = chain.members()?;
    let ghost ms = members_view(members@);
    let mut out: Vec<Credential> = Vec::new();
    let mut i: usize = 0;
    proof {
        assert(creds_view(out@) =~= Seq::<CredentialView>::empty());
    }
    while i < members.len()
        invariant
            ms == members_view(members@),
            i <= members@.len(),
            creds_view(out@) == others_upto(ms, me@, i as int),
        decreases members@.len() - i,
    {
        let m = members[i];
        proof {
            assert(ms[i as int] == m@);
        }
        let mut later = false;
        let mut j = i + 1;
        let ghost mut witness: int = 0;
        while j < members.len()
            invariant
                ms == members_view(members@),
                i < j <= members@.len(),
                ms[i as int] == m@,
                !later ==> forall|k: int| i < k < j ==> (#[trigger] ms[k]).id != m@.id,
                later ==> i < witness < ms.len() && ms[witness].id == m@.id,
            decreases members@.len() - j,
        {
            if crate::codec::eq32(&members[j].id, &m.id) {
                later = true;
                proof {
                    witness = j as int;
                    assert(ms[j as int].id == m@.id);
                }
            }
            j = j + 1;
        }
        proof {
            if !later {
                lemma_last_is_member_of(ms, i as int);
            } else {
                assert(ms[witness].id == ms[i as int].id);
                assert(!last_of_id(ms, i as int));
            }
        }
        if !later && !crate::codec::eq32(&m.id, me) {
            let ghost before = out@;
            out.push(m.cred);
            proof {
                assert(creds_view(out@) =~= creds_view(before).push(m@.cred));
            }
        }
        i = i + 1;
    }
    Ok(out)
}

proof fn lemma_last_is_member_of(ms: Seq<MemberView>, i: int)
    requires
        0 <= i < ms.len(),
        last_of_id(ms, i),
    ensures
        member_of(ms, ms[i].id) == Some(ms[i]),
{
    lemma_member_last_from(ms, ms[i].id, i, ms.len() as int);
}

proof fn lemma_member_last_from(ms: Seq<MemberView>, id: Seq<u8>, i: int, n: int)
    requires
        0 <= i < n <= ms.len(),
        ms[i].id == id,
        forall|j: int| i < j < ms.len() ==> (#[trigger] ms[j]).id != id,
    ensures
        crate::chain::member_last(ms, id, n) == Some(ms[i]),
    decreases n,
{
    if n - 1 > i {
        assert(ms[n - 1].id != id);
        lemma_member_last_from(ms, id, i, n - 1);
    }
}

// ---------------------------------------------------------------------------
// Identity shares, membership, revocation, truncation
// ---------------------------------------------------------------------------

/// Sharing identity bytes with the one other member: the bytes are sealed
/// to that member under `nonce` and the envelope goes on the log as a
/// `share_identity` event.
pub open spec fn share_result(c: ChainView, r: RuntimeView, channel: Seq<u8>, pii: Seq<u8>, nonce: Seq<u8>, now: u64) -> Result<
    (ChainView, EventView),
    Error,
> {
    if fork_seen(c) {
        Err(Error::ForkRefusingNewEvent)
    } else {
        match others_result(c.events, cred_id(r.cred)) {
            Err(e) => Err(e),
            Ok(os) => if os.len() != 1 {
                Err(Error::ShareExpectsOneCounterparty)
            } else {
                match crate::crypto::seal_result(
                    SUITE_CLASSICAL,
                    KIND_EPHEMERAL,
                    r.agree,
                    cred_id(r.cred),
                    cred_id(os[0]),
                    os[0].x25519_pub,
                    channel,
                    nonce,
                    pii,
                ) {
                    Err(e) => Err(e),
                    Ok(sealed) => local_append_result(c, r, channel, T_SHARE, sealed, now),
                }
            },
        }
    }
}

pub fn share_identity(
    chain: &mut Chain,
    runtime: &RuntimeSecret,
    channel: &[u8; 32],
    pii: &[u8],
    nonce: &[u8; 24],
    now: u64,
) -> (res: Result<Event, Error>)
    requires
        old(chain).wf(),
    ensures
        final(chain).wf(),
        match res {
            Ok(e) => share_result(old(chain)@, runtime@, channel@, pii@, nonce@, now) == Ok::<(ChainView, EventView), Error>((final(chain)@, e@)),
            Err(x) => share_result(old(chain)@, runtime@, channel@, pii@, nonce@, now) == Err::<(ChainView, EventView), Error>(x)
                && final(chain)@ == old(chain)@,
        },
{
    if chain.fork_detected() {
        return Err(Error::ForkRefusingNewEvent);
    }
    let others = others(chain, &runtime.cred_id())?;
    if others.len() != 1 {
        return Err(Error::ShareExpectsOneCounterparty);
    }
    let other = others[0];
    proof {
        assert(creds_view(others@)[0] == other@);
    }
    let sealed = crate::crypto::seal_with_nonce(
        SUITE_CLASSICAL,
        KIND_EPHEMERAL,
        &runtime.agree,
        &runtime.cred_id(),
        &other.id(),
        &other.x25519_pub,
        channel,
        nonce,
        pii,
    )?;
    append_local(chain, runtime, channel, T_SHARE, sealed, now)
}

/// The plaintext of the latest identity share, among the first `n` events,
/// that opens for this runtime.
pub open spec fn share_for(evs: Seq<EventView>, agree: Seq<u8>, me: Seq<u8>, n: int) -> Option<Seq<u8>>
    decreases n,
{
    if n <= 0 {
        None
    } else if evs[n - 1].typ == T_SHARE && open_result(agree, me, evs[n - 1].body) is Ok {
        Some(open_result(agree, me, evs[n - 1].body)->Ok_0.plaintext)
    } else {
        share_for(evs, agree, me, n - 1)
    }
}

/// The identity bytes shared with this runtime on the log.
pub fn show_share(chain: &Chain, runtime: &RuntimeSecret) -> (res: Result<Vec<u8>, Error>)
    ensures
        match share_for(chain@.events, runtime.agree@, cred_id(runtime.cred@), chain@.events.len() as int) {
            Some(p) => res matches Ok(v) && v@ == p,
            None => res == Err::<Vec<u8>, Error>(Error::NoShareForRuntime),
        },
{
    let events = chain.events();
    let ghost evs = chain@.events;
    let me = runtime.cred_id();
    let mut k = events.len();
    while k > 0
        invariant
            evs == events@.map_values(|e: Event| e@),
            evs == chain@.events,
            me@ == cred_id(runtime.cred@),
            k <= events@.len(),
            share_for(evs, runtime.agree@, me@, evs.len() as int) == share_for(evs, runtime.agree@, me@, k as int),
        decreases k,
    {
        let event = &events[k - 1];
        proof {
            assert(evs[k - 1] == event@);
        }
        if event.typ == T_SHARE {
            match open(&runtime.agree, &me, event.body.as_slice()) {
                Ok(opened) => return Ok(opened.plaintext),
                Err(_) => {},
            }
        }
        k = k - 1;
    }
    Err(Error::NoShareForRuntime)
}

/// Adds a sub-runtime's credential to the log with the given capabilities.
pub fn member_add(
    chain: &mut Chain,
    runtime: &RuntimeSecret,
    channel: &[u8; 32],
    sub: &Credential,
    caps: u32,
    now: u64,
) -> (res: Result<Event, Error>)
    requires
        old(chain).wf(),
    ensures
        final(chain).wf(),
        fork_seen(old(chain)@) ==> res == Err::<Event, Error>(Error::ForkRefusingNewEvent) && final(chain)@ == old(chain)@,
        !fork_seen(old(chain)@) ==> match local_append_result(
            old(chain)@,
            runtime@,
            channel@,
            T_MEMBER_ADD,
            crate::model::member_add_encoding(sub@, caps, crate::crypto::zeros32(), 0),
            now,
        ) {
            Ok((c2, e)) => res matches Ok(ev) && ev@ == e && final(chain)@ == c2,
            Err(x) => res == Err::<Event, Error>(x) && final(chain)@ == old(chain)@,
        },
{
    if chain.fork_detected() {
        return Err(Error::ForkRefusingNewEvent);
    }
    let z = [0u8; 32];
    proof {
        assert(z@ =~= crate::crypto::zeros32()) by {
            assert(forall|i: int| 0 <= i < 32 ==> z@[i] == 0u8);
        }
    }
    let body = crate::model::member_add_body(sub, caps, &z, 0);
    append_local(chain, runtime, channel, T_MEMBER_ADD, body, now)
}

/// Revokes a credential on the log.
pub fn cred_revoke(chain: &mut Chain, runtime: &RuntimeSecret, channel: &[u8; 32], cred: &[u8; 32], now: u64) -> (res: Result<Event, Error>)
    requires
        old(chain).wf(),
    ensures
        final(chain).wf(),
        fork_seen(old(chain)@) ==> res == Err::<Event, Error>(Error::ForkRefusingNewEvent) && final(chain)@ == old(chain)@,
        !fork_seen(old(chain)@) ==> match local_append_result(old(chain)@, runtime@, channel@, T_CRED_REVOKE, cred@, now) {
            Ok((c2, e)) => res matches Ok(ev) && ev@ == e && final(chain)@ == c2,
            Err(x) => res == Err::<Event, Error>(x) && final(chain)@ == old(chain)@,
        },
{
    if chain.fork_detected() {
        return Err(Error::ForkRefusingNewEvent);
    }
    append_local(chain, runtime, channel, T_CRED_REVOKE, crate::model::id_body(cred), now)
}

/// Truncates the log below its first tip; gives the archive.
pub fn truncate(chain: &mut Chain) -> (res: Result<Chain, Error>)
    requires
        old(chain).wf(),
    ensures
        final(chain).wf(),
        tips_of(old(chain)@.events).len() == 0 ==> (res matches Err(e) && e == Error::EmptyChain && final(chain)@ == old(chain)@),
        tips_of(old(chain)@.events).len() > 0 ==> res is Ok,
        tips_of(old(chain)@.events).len() > 0 ==> match crate::chain::truncate_result(old(chain)@, tips_of(old(chain)@.events)[0]) {
            Ok((h, a)) => (res matches Ok(arch) && arch.wf() && arch@ == a && final(chain)@ == h),
            Err(x) => (res matches Err(e) && e == x && final(chain)@ == old(chain)@),
        },
{
    let tips = chain.tips();
    if tips.len() == 0 {
        return Err(Error::EmptyChain);
    }
    let tip = tips[0];
    proof {
        assert(tips@.map_values(|t: [u8; 32]| t@)[0] == tip@);
        crate::chain::lemma_tips_held(chain@.events, chain@.events.len() as int);
        assert(has_id(chain@.events, tips_of(chain@.events)[0]));
    }
    chain.truncate_below(tip)
}

// ---------------------------------------------------------------------------
// Exporting receipts
// ---------------------------------------------------------------------------

/// The last propose, accept and proceed of `proposal` among the first `n`
/// events; a body of one of those types that does not parse is an error.
pub open spec fn export_scan(evs: Seq<EventView>, proposal: Seq<u8>, n: int) -> Result<
    (Option<EventView>, Option<EventView>, Option<EventView>),
    Error,
>
    decreases n,
{
    if n <= 0 {
        Ok((None, None, None))
    } else {
        match export_scan(evs, proposal, n - 1) {
            Err(e) => Err(e),
            Ok((p, a, q)) => {
                let e = evs[n - 1];
                if e.typ == T_PROPOSE {
                    match crate::model::proposal_result(e.body) {
                        Err(x) => Err(x),
                        Ok((pid, _h)) => Ok((if pid == proposal { Some(e) } else { p }, a, q)),
                    }
                } else if e.typ == T_ACCEPT {
                    match crate::model::id_body_result(e.body) {
                        Err(x) => Err(x),
                        Ok(id) => Ok((p, if id == proposal { Some(e) } else { a }, q)),
                    }
                } else if e.typ == T_PROCEED {
                    match crate::model::id_body_result(e.body) {
                        Err(x) => Err(x),
                        Ok(id) => Ok((p, a, if id == proposal { Some(e) } else { q })),
                    }
                } else {
                    Ok((p, a, q))
                }
            },
        }
    }
}

/// The bundle exported for a receipt: the signer credentials of the propose
/// and the accept (once each), and the propose, accept and proceed.
pub open spec fn export_result(evs: Seq<EventView>, proposal: Seq<u8>) -> Result<BundleView, Error> {
    match export_scan(evs, proposal, evs.len() as int) {
        Err(e) => Err(e),
        Ok((p, a, q)) => if p is None || a is None || q is None {
            Err(Error::ArchiveRequired)
        } else {
            match members_of(evs) {
                Err(e) => Err(e),
                Ok(ms) => match member_of(ms, p->0.signer_cred_id) {
                    None => Err(Error::SignerCredMissingFromLog),
                    Some(mp) => match member_of(ms, a->0.signer_cred_id) {
                        None => Err(Error::SignerCredMissingFromLog),
                        Some(ma) => {
                            let creds = if cred_id(mp.cred) == a->0.signer_cred_id {
                                seq![mp.cred]
                            } else {
                                seq![mp.cred, ma.cred]
                            };
                            Ok(BundleView { creds, events: seq![p->0, a->0, q->0] })
                        },
                    },
                },
            }
        },
    }
}

proof fn lemma_export_scan_err(evs: Seq<EventView>, proposal: Seq<u8>, n: int, m: int)
    requires
        0 <= n <= m,
        export_scan(evs, proposal, n) is Err,
    ensures
        export_scan(evs, proposal, m) == export_scan(evs, proposal, n),
    decreases m - n,
{
    if m > n {
        lemma_export_scan_err(evs, proposal, n, m - 1);
    }
}

pub open spec fn opt_event(o: Option<Event>) -> Option<EventView> {
    match o {
        Some(e) => Some(e@),
        None => None,
    }
}

/// The stored bundle that proves a receipt from this log.
pub fn export_receipt(chain: &Chain, proposal: &[u8; 32]) -> (res: Result<Vec<u8>, Error>)
    ensures
        match export_result(chain@.events, proposal@) {
            Ok(b) => res matches Ok(v) && v@ == crate::model::bundle_encoding(b),
            Err(e) => res == Err::<Vec<u8>, Error>(e),
        },
{
    let events = chain.events();
    let ghost evs = chain@.events;
    let mut propose: Option<Event> = None;
    let mut accept: Option<Event> = None;
    let mut proceed: Option<Event> = None;
    let mut i: usize = 0;
    while i < events.len()
        invariant
            evs == events@.map_values(|e: Event| e@),
            evs == chain@.events,
            i <= events@.len(),
            export_scan(evs, proposal@, i as int) == Ok::<(Option<EventView>, Option<EventView>, Option<EventView>), Error>(
                (opt_event(propose), opt_event(accept), opt_event(proceed)),
            ),
        decreases events@.len() - i,
    {
        let event = &events[i];
        proof {
            assert(evs[i as int] == event@);
        }
        if event.typ == T_PROPOSE {
            match crate::model::parse_proposal(event.body.as_slice()) {
                Err(e) => {
                    proof {
                        lemma_export_scan_err(evs, proposal@, i + 1, evs.len() as int);
                    }
                    return Err(e);
                },
                Ok((pid, _h)) => {
                    if crate::codec::eq32(&pid, proposal) {
                        propose = Some(event.duplicate());
                    }
                },
            }
        } else if event.typ == T_ACCEPT {
            match crate::model::parse_id_body(event.body.as_slice()) {
                Err(e) => {
                    proof {
                        lemma_export_scan_err(evs, proposal@, i + 1, evs.len() as int);
                    }
                    return Err(e);
                },
                Ok(id) => {
                    if crate::codec::eq32(&id, proposal) {
                        accept = Some(event.duplicate());
                    }
                },
            }
        } else if event.typ == T_PROCEED {
            match crate::model::parse_id_body(event.body.as_slice()) {
                Err(e) => {
                    proof {
                        lemma_export_scan_err(evs, proposal@, i + 1, evs.len() as int);
                    }
                    return Err(e);
                },
                Ok(id) => {
                    if crate::codec::eq32(&id, proposal) {
                        proceed = Some(event.duplicate());
                    }
                },
            }
        }
        i = i + 1;
    }
    let (p, a, q) = match (propose, accept, proceed) {
        (Some(p), Some(a), Some(q)) => (p, a, q),
        _ => return Err(Error::ArchiveRequired),
    };
    let members = chain.members()?;
    let mp = match crate::chain::find_member(&members, &p.signer_cred_id) {
        Some(m) => m,
        None => return Err(Error::SignerCredMissingFromLog),
    };
    let ma = match crate::chain::find_member(&members, &a.signer_cred_id) {
        Some(m) => m,
        None => return Err(Error::SignerCredMissingFromLog),
    };
    let mut creds: Vec<Credential> = Vec::new();
    creds.push(mp.cred);
    if !crate::codec::eq32(&mp.cred.id(), &a.signer_cred_id) {
        creds.push(ma.cred);
    }
    let ghost pv = p@;
    let ghost av = a@;
    let ghost qv = q@;
    let mut evs_out: Vec<Event> = Vec::new();
    evs_out.push(p);
    evs_out.push(a);
    evs_out.push(q);
    let bundle = Bundle { creds, events: evs_out };
    proof {
        assert(bundle@.events =~= seq![pv, av, qv]);
        if cred_id(mp.cred@) == av.signer_cred_id {
            assert(bundle@.creds =~= seq![mp.cred@]);
        } else {
            assert(bundle@.creds =~= seq![mp.cred@, ma.cred@]);
        }
    }
    Ok(bundle.encode())
}

/// An event is signed with the key that the log's membership holds for its
/// signer, as the log checks when it admits an event.
pub open spec fn signer_key_matches(evs: Seq<EventView>, e: EventView) -> bool {
    &&& members_of(evs) is Ok
    &&& member_of(members_of(evs)->Ok_0, e.signer_cred_id) matches Some(m)
    &&& m.cred.ed25519_pub == e.signer_pub
}

/// Every grant read from the log is for the credential it names, and that
/// credential is well formed and signed by its root.
proof fn lemma_member_entries_checked(evs: Seq<EventView>, n: int)
    requires
        crate::chain::member_entries(evs, n) is Ok,
    ensures
        forall|k: int|
            0 <= k < crate::chain::member_entries(evs, n)->Ok_0.len() ==> {
                let m = #[trigger] crate::chain::member_entries(evs, n)->Ok_0[k];
                &&& m.id == cred_id(m.cred)
                &&& crate::model::cred_sized(m.cred)
                &&& crate::model::cred_parent_result(m.cred) is Ok
            },
    decreases n,
{
    if n > 0 {
        lemma_member_entries_checked(evs, n - 1);
        if evs[n - 1].typ == T_MEMBER_ADD {
            let b = evs[n - 1].body;
            let l = crate::codec::u32_of(b.subrange(0, 4)) as int;
            crate::model::lemma_cred_decode_canonical(b.subrange(4, 4 + l));
        }
    }
}

/// The latest grant to `id` is one of the grants, and it names `id`.
proof fn lemma_member_last_in(ms: Seq<MemberView>, id: Seq<u8>, n: int)
    requires
        n <= ms.len(),
        crate::chain::member_last(ms, id, n) is Some,
    ensures
        exists|k: int| 0 <= k < n && ms[k] == crate::chain::member_last(ms, id, n)->0,
        crate::chain::member_last(ms, id, n)->0.id == id,
    decreases n,
{
    if ms[n - 1].id != id {
        lemma_member_last_in(ms, id, n - 1);
    }
}

/// The events the export picks are events of the log, of their types, and
/// name the proposal.
proof fn lemma_export_scan_picks(evs: Seq<EventView>, proposal: Seq<u8>, n: int)
    requires
        n <= evs.len(),
        export_scan(evs, proposal, n) is Ok,
    ensures
        ({
            let (p, a, q) = export_scan(evs, proposal, n)->Ok_0;
            &&& p matches Some(e) ==> (exists|k: int| 0 <= k < n && evs[k] == e) && e.typ == T_PROPOSE
                && (crate::model::proposal_result(e.body) matches Ok((pid, _h)) && pid == proposal)
            &&& a matches Some(e) ==> (exists|k: int| 0 <= k < n && evs[k] == e) && e.typ == T_ACCEPT
                && crate::model::id_body_result(e.body) == Ok::<Seq<u8>, Error>(proposal)
            &&& q matches Some(e) ==> (exists|k: int| 0 <= k < n && evs[k] == e) && e.typ == T_PROCEED
                && crate::model::id_body_result(e.body) == Ok::<Seq<u8>, Error>(proposal)
        }),
    decreases n,
{
    if n > 0 {
        lemma_export_scan_picks(evs, proposal, n - 1);
        let (p, a, q) = export_scan(evs, proposal, n - 1)->Ok_0;
        if p is Some {
            let k = choose|k: int| 0 <= k < n - 1 && evs[k] == p->0;
            assert(0 <= k < n && evs[k] == p->0);
        }
        if a is Some {
            let k = choose|k: int| 0 <= k < n - 1 && evs[k] == a->0;
            assert(0 <= k < n && evs[k] == a->0);
        }
        if q is Some {
            let k = choose|k: int| 0 <= k < n - 1 && evs[k] == q->0;
            assert(0 <= k < n && evs[k] == q->0);
        }
        assert(evs[n - 1] == evs[n - 1]);
    }
}

/// A three-event bundle whose propose, accept and proceed name one
/// proposal, with the proposer's and the accepter's credentials, checks as
/// the content allows.
proof fn lemma_verify_three(
    b: BundleView,
    pe: EventView,
    ae: EventView,
    qe: EventView,
    c0: CredentialView,
    c1: CredentialView,
    content: Option<Seq<u8>>,
)
    requires
        b.events == seq![pe, ae, qe],
        b.creds == seq![c0, c1],
        cred_id(c0) == pe.signer_cred_id,
        c0.ed25519_pub == pe.signer_pub,
        cred_id(c1) == ae.signer_cred_id,
        c1.ed25519_pub == ae.signer_pub,
        crate::model::cred_parent_result(c0) is Ok,
        crate::model::cred_parent_result(c1) is Ok,
        pe.signer_cred_id != ae.signer_cred_id,
        crate::model::cred_principal(c0) != crate::model::cred_principal(c1),
        qe.signer_cred_id == pe.signer_cred_id,
        qe.signer_pub == pe.signer_pub,
        pe.typ == T_PROPOSE,
        ae.typ == T_ACCEPT,
        qe.typ == T_PROCEED,
        crate::model::proposal_result(pe.body) is Ok,
        crate::model::id_body_result(ae.body) == Ok::<Seq<u8>, Error>(crate::model::proposal_result(pe.body)->Ok_0.0),
        crate::model::id_body_result(qe.body) == Ok::<Seq<u8>, Error>(crate::model::proposal_result(pe.body)->Ok_0.0),
    ensures
        verify_bundle_result(b, content) == if content matches Some(c) && sha256_of(c)
            != crate::model::proposal_result(pe.body)->Ok_0.1 {
            Err::<(), Error>(Error::ContentHashMismatch)
        } else {
            Ok::<(), Error>(())
        },
{
    assert(crate::model::find_cred(b.creds, pe.signer_cred_id, pe.signer_pub, 0) == Some(0int));
    assert(crate::model::find_cred(b.creds, ae.signer_cred_id, ae.signer_pub, 1) == Some(1int));
    assert(crate::model::find_cred(b.creds, ae.signer_cred_id, ae.signer_pub, 0) == Some(1int));
    assert(crate::model::find_cred(b.creds, qe.signer_cred_id, qe.signer_pub, 0) == Some(0int));
    assert(crate::model::bundle_scan(b, 0) == Ok::<(Option<int>, Option<int>, Option<int>), Error>((None, None, None)));
    assert(b.creds[0] == c0 && b.creds[1] == c1);
    assert(b.events[0] == pe && b.events[1] == ae && b.events[2] == qe);
    assert(crate::model::bundle_scan(b, 1) == Ok::<(Option<int>, Option<int>, Option<int>), Error>((Some(0int), None, None)));
    assert(crate::model::bundle_scan(b, 2) == Ok::<(Option<int>, Option<int>, Option<int>), Error>(
        (Some(0int), Some(1int), None),
    ));
    assert(crate::model::bundle_scan(b, 3) == Ok::<(Option<int>, Option<int>, Option<int>), Error>(
        (Some(0int), Some(1int), Some(2int)),
    ));
    assert(crate::model::signer_cred(b, pe) == c0);
    assert(crate::model::signer_cred(b, ae) == c1);
}

/// What an export holds: the last propose, accept and proceed of the
/// proposal, and the credentials the log's membership holds for the
/// proposer and the accepter.
proof fn lemma_export_parts(evs: Seq<EventView>, proposal: Seq<u8>)
    requires
        export_result(evs, proposal) is Ok,
    ensures
        ({
            let b = export_result(evs, proposal)->Ok_0;
            let ms = members_of(evs)->Ok_0;
            &&& members_of(evs) is Ok
            &&& b.events.len() == 3
            &&& member_of(ms, b.events[0].signer_cred_id) is Some
            &&& member_of(ms, b.events[1].signer_cred_id) is Some
            &&& b.events[0].typ == T_PROPOSE
            &&& b.events[1].typ == T_ACCEPT
            &&& b.events[2].typ == T_PROCEED
            &&& crate::model::proposal_result(b.events[0].body) matches Ok((pid, _h)) && pid == proposal
            &&& crate::model::id_body_result(b.events[1].body) == Ok::<Seq<u8>, Error>(proposal)
            &&& crate::model::id_body_result(b.events[2].body) == Ok::<Seq<u8>, Error>(proposal)
            &&& forall|i: int| 0 <= i < 3 ==> exists|k: int| 0 <= k < evs.len() && evs[k] == #[trigger] b.events[i]
            &&& b.creds == if cred_id(member_of(ms, b.events[0].signer_cred_id)->0.cred) == b.events[1].signer_cred_id {
                seq![member_of(ms, b.events[0].signer_cred_id)->0.cred]
            } else {
                seq![
                    member_of(ms, b.events[0].signer_cred_id)->0.cred,
                    member_of(ms, b.events[1].signer_cred_id)->0.cred,
                ]
            }
        }),
{
    lemma_export_scan_picks(evs, proposal, evs.len() as int);
    let b = export_result(evs, proposal)->Ok_0;
    assert forall|i: int| 0 <= i < 3 implies exists|k: int| 0 <= k < evs.len() && evs[k] == #[trigger] b.events[i] by {
        if i == 0 {
            assert(b.events[0] == export_scan(evs, proposal, evs.len() as int)->Ok_0.0->0);
        } else if i == 1 {
            assert(b.events[1] == export_scan(evs, proposal, evs.len() as int)->Ok_0.1->0);
        } else {
            assert(b.events[2] == export_scan(evs, proposal, evs.len() as int)->Ok_0.2->0);
        }
    }
}

/// The credential the membership holds for `id` is that credential, well
/// formed and signed by its root.
proof fn lemma_member_of_checked(evs: Seq<EventView>, id: Seq<u8>)
    requires
        members_of(evs) is Ok,
        member_of(members_of(evs)->Ok_0, id) is Some,
    ensures
        ({
            let m = member_of(members_of(evs)->Ok_0, id)->0;
            &&& cred_id(m.cred) == id
            &&& crate::model::cred_sized(m.cred)
            &&& crate::model::cred_parent_result(m.cred) is Ok
        }),
{
    let ms = members_of(evs)->Ok_0;
    lemma_member_entries_checked(evs, evs.len() as int);
    lemma_member_last_in(ms, id, ms.len() as int);
    let m = member_of(ms, id)->0;
    let k = choose|k: int| 0 <= k < ms.len() && ms[k] == m;
    assert(ms[k] == m);
}

/// A receipt exported from a log reads back from its stored form and
/// verifies offline, when the accept comes from a second party (another
/// credential of another principal), the proceed from the proposer, and each
/// of the three is signed with the key the log's membership holds for its
/// signer. Content handed to the verifier is
/// then accepted exactly when it is the content the proposal committed to.
#[verifier::rlimit(50)]
pub proof fn lemma_export_verifies(evs: Seq<EventView>, proposal: Seq<u8>, content: Option<Seq<u8>>)
    requires
        forall|i: int|
            0 <= i < evs.len() ==> crate::model::event_sized(#[trigger] evs[i]) && crate::model::event_sig_result(evs[i]) is Ok
                && crate::model::event_encoding(evs[i]).len() <= u32::MAX,
        export_result(evs, proposal) matches Ok(b) && {
            &&& b.events[0].signer_cred_id != b.events[1].signer_cred_id
            &&& crate::model::cred_principal(member_of(members_of(evs)->Ok_0, b.events[0].signer_cred_id)->0.cred)
                != crate::model::cred_principal(member_of(members_of(evs)->Ok_0, b.events[1].signer_cred_id)->0.cred)
            &&& b.events[2].signer_cred_id == b.events[0].signer_cred_id
            &&& signer_key_matches(evs, b.events[0])
            &&& signer_key_matches(evs, b.events[1])
            &&& signer_key_matches(evs, b.events[2])
        },
    ensures
        ({
            let b = export_result(evs, proposal)->Ok_0;
            let hash = crate::model::proposal_result(b.events[0].body)->Ok_0.1;
            &&& crate::model::bundle_decode_result(crate::model::bundle_encoding(b)) == Ok::<BundleView, Error>(b)
            &&& verify_bundle_result(b, content) == if content matches Some(c) && sha256_of(c) != hash {
                Err::<(), Error>(Error::ContentHashMismatch)
            } else {
                Ok::<(), Error>(())
            }
        }),
{
    let b = export_result(evs, proposal)->Ok_0;
    lemma_export_parts(evs, proposal);
    let ms = members_of(evs)->Ok_0;
    let pe = b.events[0];
    let ae = b.events[1];
    let qe = b.events[2];
    lemma_member_of_checked(evs, pe.signer_cred_id);
    lemma_member_of_checked(evs, ae.signer_cred_id);
    let c0 = member_of(ms, pe.signer_cred_id)->0.cred;
    let c1 = member_of(ms, ae.signer_cred_id)->0.cred;
    assert(b.creds == seq![c0, c1]);
    assert(b.events =~= seq![pe, ae, qe]);
    assert forall|i: int| 0 <= i < b.events.len() implies crate::model::event_sized(#[trigger] b.events[i])
        && crate::model::event_sig_result(b.events[i]) is Ok && crate::model::event_encoding(b.events[i]).len()
        <= u32::MAX by {
        let k = choose|k: int| 0 <= k < evs.len() && evs[k] == b.events[i];
        assert(evs[k] == b.events[i]);
    }
    assert forall|i: int| 0 <= i < b.creds.len() implies crate::model::cred_sized(#[trigger] b.creds[i])
        && crate::model::cred_parent_result(b.creds[i]) is Ok by {
        if i == 0 {
            assert(b.creds[i] == c0);
        } else {
            assert(b.creds[i] == c1);
        }
    }
    crate::model::lemma_bundle_roundtrip(b);
    lemma_verify_three(b, pe, ae, qe, c0, c1, content);
}

// ---------------------------------------------------------------------------
// Loading a channel with its archive
// ---------------------------------------------------------------------------

/// The archive's events and then the hot log's, each taken in asking for
/// known parents. A hot event that does not attach is reported as a missing
/// archive.
pub open spec fn combined_result(archive: Option<Seq<EventView>>, hot: Seq<EventView>) -> Result<ChainView, Error> {
    let base = match archive {
        Some(a) => crate::chain::build_upto(a, a.len() as int, crate::chain::empty_chain(None), true),
        None => Ok(crate::chain::empty_chain(None)),
    };
    match base {
        Err(e) => Err(e),
        Ok(c) => match crate::chain::build_upto(hot, hot.len() as int, c, true) {
            Err(_) => Err(Error::ArchiveRequired),
            Ok(c2) => Ok(c2),
        },
    }
}

proof fn lemma_build_err(evs: Seq<EventView>, n: int, m: int, c0: ChainView, strict: bool)
    requires
        0 <= n <= m,
        crate::chain::build_upto(evs, n, c0, strict) is Err,
    ensures
        crate::chain::build_upto(evs, m, c0, strict) == crate::chain::build_upto(evs, n, c0, strict),
    decreases m - n,
{
    if m > n {
        lemma_build_err(evs, n, m - 1, c0, strict);
    }
}

fn take_all(chain: &mut Chain, from: &Chain) -> (res: Result<(), Error>)
    requires
        old(chain).wf(),
    ensures
        final(chain).wf(),
        match crate::chain::build_upto(from@.events, from@.events.len() as int, old(chain)@, true) {
            Ok(c) => res is Ok && final(chain)@ == c,
            Err(e) => res == Err::<(), Error>(e),
        },
{
    let events = from.events();
    let ghost evs = from@.events;
    let ghost c0 = chain@;
    let mut i: usize = 0;
    while i < events.len()
        invariant
            evs == events@.map_values(|e: Event| e@),
            evs == from@.events,
            c0 == old(chain)@,
            chain.wf(),
            i <= events@.len(),
            crate::chain::build_upto(evs, i as int, c0, true) == Ok::<ChainView, Error>(chain@),
        decreases events@.len() - i,
    {
        proof {
            assert(evs[i as int] == events@[i as int]@);
        }
        match chain.insert(events[i].duplicate(), true, true) {
            Ok(_) => {},
            Err(e) => {
                proof {
                    lemma_build_err(evs, i + 1, evs.len() as int, c0, true);
                }
                return Err(e);
            },
        }
        i = i + 1;
    }
    Ok(())
}

/// A channel's archive (when there is one) and hot log as one log.
pub fn load_combined(archive: Option<&Chain>, hot: &Chain) -> (res: Result<Chain, Error>)
    ensures
        match combined_result(match archive { Some(a) => Some(a@.events), None => None }, hot@.events) {
            Ok(c) => res matches Ok(ch) && ch.wf() && ch@ == c,
            Err(e) => res matches Err(x) && x == e,
        },
{
    let mut chain = Chain::new();
    match archive {
        Some(a) => take_all(&mut chain, a)?,
        None => {},
    }
    match take_all(&mut chain, hot) {
        Ok(_) => Ok(chain),
        Err(_) => Err(Error::ArchiveRequired),
    }
}

/// The state of a receipt on a log.
pub fn receipt_state(chain: &Chain, proposal: &[u8; 32]) -> (out: &'static str)
    ensures
        out@ == crate::chain::receipt_status(chain@.events, proposal@),
{
    chain.receipt_state(proposal)
}

// ---------------------------------------------------------------------------
// Frames and deliveries
// ---------------------------------------------------------------------------

/// The members an ephemeral frame goes to: this runtime must be a member
/// holding `append_frame`; the frame goes to every other member.
pub open spec fn frame_targets(evs: Seq<EventView>, me: Seq<u8>) -> Result<Seq<CredentialView>, Error> {
    match members_of(evs) {
        Err(e) => Err(e),
        Ok(ms) => match member_of(ms, me) {
            None => Err(Error::NotAMember),
            Some(m) => if m.caps & crate::model::CAP_APPEND == 0 {
                Err(Error::CapabilityDenied)
            } else {
                Ok(others_upto(ms, me, ms.len() as int))
            },
        },
    }
}

/// Who a frame from this runtime is sealed to.
pub fn send_frame(chain: &Chain, runtime: &RuntimeSecret) -> (res: Result<Vec<Credential>, Error>)
    ensures
        match res {
            Ok(v) => frame_targets(chain@.events, cred_id(runtime.cred@)) == Ok::<Seq<CredentialView>, Error>(creds_view(v@)),
            Err(e) => frame_targets(chain@.events, cred_id(runtime.cred@)) == Err::<Seq<CredentialView>, Error>(e),
        },
{
    let members = chain.members()?;
    let me = runtime.cred_id();
    let m = match crate::chain::find_member(&members, &me) {
        Some(m) => m,
        None => return Err(Error::NotAMember),
    };
    if m.caps & crate::model::CAP_APPEND == 0 {
        return Err(Error::CapabilityDenied);
    }
    others(chain, &me)
}

/// What arrived in an envelope: an ephemeral frame's payload, or a ledger
/// event for one of this runtime's channels.
pub enum Delivery {
    Frame(Vec<u8>),
    Ledger(Event),
}

/// What opening a delivered envelope gives: a frame is unpacked; a ledger
/// event must decode and name the channel the envelope was sealed for.
pub open spec fn delivery_result(agree: Seq<u8>, me: Seq<u8>, b: Seq<u8>) -> Result<(bool, Seq<u8>, Option<EventView>), Error> {
    match open_result(agree, me, b) {
        Err(e) => Err(e),
        Ok(env) => if env.kind == KIND_EPHEMERAL {
            match crate::pack::unpack_result(env.plaintext) {
                Err(e) => Err(e),
                Ok(p) => Ok((true, p, None)),
            }
        } else if env.kind != KIND_LEDGER {
            Err(Error::UnknownEnvelopeKind)
        } else {
            match event_decode_result(env.plaintext) {
                Err(e) => Err(e),
                Ok(ev) => if ev.channel_id != env.channel_id {
                    Err(Error::ChannelMismatch)
                } else {
                    Ok((false, Seq::empty(), Some(ev)))
                },
            }
        },
    }
}

pub fn open_delivery(runtime: &RuntimeSecret, bytes: &[u8]) -> (res: Result<Delivery, Error>)
    ensures
        match res {
            Ok(Delivery::Frame(p)) => delivery_result(runtime.agree@, cred_id(runtime.cred@), bytes@)
                == Ok::<(bool, Seq<u8>, Option<EventView>), Error>((true, p@, None)),
            Ok(Delivery::Ledger(e)) => delivery_result(runtime.agree@, cred_id(runtime.cred@), bytes@)
                == Ok::<(bool, Seq<u8>, Option<EventView>), Error>((false, Seq::empty(), Some(e@))),
            Err(e) => delivery_result(runtime.agree@, cred_id(runtime.cred@), bytes@) == Err::<
                (bool, Seq<u8>, Option<EventView>),
                Error,
            >(e),
        },
{
    let opened = open(&runtime.agree, &runtime.cred_id(), bytes)?;
    if opened.kind == KIND_EPHEMERAL {
        let plain = crate::pack::unpack_payload(opened.plaintext.as_slice())?;
        return Ok(Delivery::Frame(plain));
    }
    if opened.kind != KIND_LEDGER {
        return Err(Error::UnknownEnvelopeKind);
    }
    let event = Event::decode(opened.plaintext.as_slice())?;
    if !crate::codec::eq32(&event.channel_id, &opened.channel_id) {
        return Err(Error::ChannelMismatch);
    }
    Ok(Delivery::Ledger(event))
}

/// The invite token a delivered `member_add` spends, when the channel
/// still waits for one: a self-join that carries a non-zero token.
pub open spec fn token_claim_result(e: EventView, waiting: bool) -> Result<Option<Seq<u8>>, Error> {
    if e.typ == T_MEMBER_ADD && waiting {
        match crate::model::member_add_result(e.body) {
            Err(x) => Err(x),
            Ok((c, _caps, token, _gen)) => if cred_id(c) == e.signer_cred_id && token != crate::crypto::zeros32() {
                Ok(Some(token))
            } else {
                Ok(None)
            },
        }
    } else {
        Ok(None)
    }
}

pub fn token_claim(event: &Event, waiting: bool) -> (res: Result<Option<[u8; 32]>, Error>)
    ensures
        match res {
            Ok(Some(t)) => token_claim_result(event@, waiting) == Ok::<Option<Seq<u8>>, Error>(Some(t@)),
            Ok(None) => token_claim_result(event@, waiting) == Ok::<Option<Seq<u8>>, Error>(None),
            Err(e) => token_claim_result(event@, waiting) == Err::<Option<Seq<u8>>, Error>(e),
        },
{
    if event.typ == T_MEMBER_ADD && waiting {
        let (cred, _caps, token, _gen) = crate::model::parse_member_add(event.body.as_slice())?;
        if crate::codec::eq32(&cred.id(), &event.signer_cred_id) && !crate::crypto::is_zero32(&token) {
            return Ok(Some(token));
        }
    }
    Ok(None)
}

/// Whether the token kept for an invite is the one a join spends.
pub fn token_matches(expected: &[u8], token: &[u8; 32]) -> (r: bool)
    ensures
        r == (expected@ == token@),
{
    crate::codec::bytes_eq(expected, token.as_slice())
}

/// What to do with a delivered ledger event.
pub enum LedgerStep {
    /// The log already holds it: nothing changes.
    Held,
    /// Take it in; first spend the channel's invite token when it claims it.
    Admit { spend_token: bool },
}

/// The step for a delivered ledger event, given the invite token the channel
/// still waits for (if any): a held event changes nothing; a self-join that
/// spends a token must spend the awaited one; anything else is taken in.
/// `None` stands for a held event, `Some(spend)` for taking it in.
pub open spec fn ledger_step_result(evs: Seq<EventView>, e: EventView, expected: Option<Seq<u8>>) -> Result<
    Option<bool>,
    Error,
> {
    if has_id(evs, crate::model::event_id(e)) {
        Ok(None)
    } else {
        match token_claim_result(e, expected is Some) {
            Err(x) => Err(x),
            Ok(None) => Ok(Some(false)),
            Ok(Some(t)) => if expected->0 == t {
                Ok(Some(true))
            } else {
                Err(Error::InviteTokenRejected)
            },
        }
    }
}

pub fn ledger_step(chain: &Chain, event: &Event, expected_token: Option<&[u8]>) -> (res: Result<LedgerStep, Error>)
    requires
        chain.wf(),
    ensures
        match res {
            Ok(LedgerStep::Held) => ledger_step_result(chain@.events, event@, opt_bytes(expected_token))
                == Ok::<Option<bool>, Error>(None),
            Ok(LedgerStep::Admit { spend_token }) => ledger_step_result(chain@.events, event@, opt_bytes(expected_token))
                == Ok::<Option<bool>, Error>(Some(spend_token)),
            Err(e) => ledger_step_result(chain@.events, event@, opt_bytes(expected_token)) == Err::<Option<bool>, Error>(e),
        },
{
    if chain.contains(&event.id()) {
        return Ok(LedgerStep::Held);
    }
    let claimed = token_claim(event, expected_token.is_some())?;
    match claimed {
        None => Ok(LedgerStep::Admit { spend_token: false }),
        Some(token) => {
            let expected = match expected_token {
                Some(x) => x,
                None => return Ok(LedgerStep::Admit { spend_token: false }),
            };
            if token_matches(expected, &token) {
                Ok(LedgerStep::Admit { spend_token: true })
            } else {
                Err(Error::InviteTokenRejected)
            }
        },
    }
}

/// Takes a delivered ledger event into the log when the log admits it.
pub fn admit_event(chain: &mut Chain, event: Event, now: u64) -> (res: Result<(), Error>)
    requires
        old(chain).wf(),
    ensures
        final(chain).wf(),
        match screen_result(old(chain)@.events, event@, now) {
            Err(e) => res == Err::<(), Error>(e) && final(chain)@ == old(chain)@,
            Ok(_) => match insert_result(old(chain)@, event@, true, true) {
                (c, Ok(_)) => res is Ok && final(chain)@ == c,
                (c, Err(e)) => res == Err::<(), Error>(e) && final(chain)@ == c,
            },
        },
{
    chain.screen(&event, now)?;
    chain.append(event)?;
    Ok(())
}

/// What a poll delivered: frames, ledger events, and the frame payloads.
pub struct PollOut {
    pub ephemeral: usize,
    pub ledger: usize,
    pub payloads: Vec<Vec<u8>>,
}

pub open spec fn outcome_view(o: Result<Option<Vec<u8>>, Error>) -> Result<Option<Seq<u8>>, Error> {
    match o {
        Ok(Some(p)) => Ok(Some(p@)),
        Ok(None) => Ok(None),
        Err(e) => Err(e),
    }
}

/// The counts and payloads of the first `n` outcomes, and the first error.
pub open spec fn poll_fold(os: Seq<Result<Option<Seq<u8>>, Error>>, n: int) -> (nat, nat, Seq<Seq<u8>>, Option<Error>)
    decreases n,
{
    if n <= 0 {
        (0, 0, Seq::empty(), None)
    } else {
        let (e, l, ps, err) = poll_fold(os, n - 1);
        match os[n - 1] {
            Ok(Some(p)) => (e + 1, l, ps.push(p), err),
            Ok(None) => (e, l + 1, ps, err),
            Err(x) => (e, l, ps, if err is None { Some(x) } else { err }),
        }
    }
}

/// Sums up the deliveries of one poll. Every envelope was acked either
/// way; the first envelope that failed is reported after all were seen.
pub fn poll(outcomes: Vec<Result<Option<Vec<u8>>, Error>>) -> (res: Result<PollOut, Error>)
    ensures
        ({
            let (e, l, ps, err) = poll_fold(outcomes@.map_values(|o: Result<Option<Vec<u8>>, Error>| outcome_view(o)), outcomes@.len() as int);
            match err {
                Some(x) => res == Err::<PollOut, Error>(x),
                None => res matches Ok(out) && out.ephemeral == e && out.ledger == l
                    && out.payloads@.map_values(|p: Vec<u8>| p@) == ps,
            }
        }),
{
    let ghost os = outcomes@.map_values(|o: Result<Option<Vec<u8>>, Error>| outcome_view(o));
    let n = outcomes.len();
    let mut out = PollOut { ephemeral: 0, ledger: 0, payloads: Vec::new() };
    let mut first_err: Option<Error> = None;
    let ghost orig = outcomes@;
    let mut rest = outcomes;
    proof {
        assert(out.payloads@.map_values(|p: Vec<u8>| p@) =~= Seq::<Seq<u8>>::empty());
        assert(rest@.subrange(0, n as int) =~= rest@);
    }
    let mut i: usize = 0;
    while i < n
        invariant
            i <= n,
            n == os.len(),
            orig.len() == n,
            os == orig.map_values(|o: Result<Option<Vec<u8>>, Error>| outcome_view(o)),
            rest@ == orig.subrange(i as int, n as int),
            ({
                let (e, l, ps, err) = poll_fold(os, i as int);
                out.ephemeral == e && out.ledger == l && out.payloads@.map_values(|p: Vec<u8>| p@) == ps
                    && err == first_err
            }),
            out.ephemeral + out.ledger <= i,
        decreases n - i,
    {
        let o = rest.remove(0);
        proof {
            assert(o == orig[i as int]);
            assert(outcome_view(o) == os[i as int]);
            assert(rest@ =~= orig.subrange(i + 1, n as int));
        }
        match o {
            Ok(Some(p)) => {
                let ghost before = out.payloads@;
                out.ephemeral = out.ephemeral + 1;
                out.payloads.push(p);
                proof {
                    assert(out.payloads@.map_values(|p: Vec<u8>| p@) =~= before.map_values(|p: Vec<u8>| p@).push(p@));
                }
            },
            Ok(None) => {
                out.ledger = out.ledger + 1;
            },
            Err(e) => {
                if first_err.is_none() {
                    first_err = Some(e);
                }
            },
        }
        i = i + 1;
    }
    match first_err {
        Some(e) => Err(e),
        None => Ok(out),
    }
}

// ---------------------------------------------------------------------------
// Vaults, runtimes and invites
// ---------------------------------------------------------------------------

/// A new vault's handles and report: the first handle, generation 1.
pub fn new_vault(root: &RootSecret, fresh: &[u8; 32]) -> (out: (VaultOut, Handles))
    ensures
        out.0.principal@ == sha256_of(crate::crypto::ed25519_public_of(root@)),
        out.0.handle@ == ascii_chars(hex_bytes(fresh@.subrange(0, 16))),
        out.1.gen == 1,
        out.1.current@ == out.0.handle@,
        out.1.retired@.len() == 0,
{
    let handle = new_handle(fresh);
    let handles = Handles { gen: 1, current: handle.clone(), retired: Vec::new() };
    (VaultOut { principal: root.principal_id(), handle }, handles)
}

/// A runtime enrolled under the vault's root.
pub fn enroll(root: &RootSecret, ttl_secs: u64, caps: u32) -> (r: RuntimeSecret)
    ensures
        crate::model::runtime_wf(r@),
        r.cred.root_pub@ == crate::crypto::ed25519_public_of(root@),
        r.cred.caps == caps,
        ttl_secs == 0 ==> r.cred.not_after == 0,
        ttl_secs > 0 ==> r.cred.not_after == (if r.cred.not_before + ttl_secs > u64::MAX {
            u64::MAX
        } else {
            (r.cred.not_before + ttl_secs) as u64
        }),
        crate::model::cred_parent_result(r.cred@) is Ok,
{
    RuntimeSecret::issue(root, ttl_secs, caps)
}

/// Retires the current handle for a fresh one.
pub fn rotate_handle(root: &RootSecret, handles: Handles, fresh: &[u8; 32]) -> (out: (VaultOut, Handles))
    ensures
        out.0.principal@ == sha256_of(crate::crypto::ed25519_public_of(root@)),
        out.0.handle@ == ascii_chars(hex_bytes(fresh@.subrange(0, 16))),
        out.1.gen == (if handles.gen == u64::MAX { u64::MAX } else { (handles.gen + 1) as u64 }),
        out.1.current@ == out.0.handle@,
        strings_view(out.1.retired@) == strings_view(handles.retired@).push(handles.current@),
{
    let handle = new_handle(fresh);
    let rotated = rotate_handles(handles, handle.clone());
    (VaultOut { principal: root.principal_id(), handle }, rotated)
}

/// An invite names the vault's current handle only.
pub fn check_handle(handles: &Handles, handle: &str) -> (res: Result<(), Error>)
    ensures
        res is Ok <==> handle@ == handles.current@,
        res matches Err(e) ==> e == Error::StaleHandle,
{
    if !crate::text::str_eq(handle, handles.current.as_str()) {
        return Err(Error::StaleHandle);
    }
    Ok(())
}

/// How long an invite stays valid, in seconds.
pub const INVITE_TTL_SECS: u64 = 86400;

/// The saturating sum of two `u64`.
pub open spec fn sat_add(a: u64, b: u64) -> u64 {
    if a + b > u64::MAX {
        u64::MAX
    } else {
        (a + b) as u64
    }
}

/// Minting an invite: the runtime must belong to this vault's root and be
/// live at `now`; it opens channel `channel` with its own `member_add`
/// (granting its own caps under the current handle generation), and signs
/// an invite carrying `token` that expires a day after `now`.
pub open spec fn mint_result(gen: u64, handle: Seq<char>, r: RuntimeView, root: Seq<u8>, now: u64, channel: Seq<u8>, token: Seq<u8>) -> Result<
    (ChainView, crate::model::InviteView),
    Error,
> {
    if crate::model::cred_principal(r.cred) != sha256_of(crate::crypto::ed25519_public_of(root)) {
        Err(Error::RuntimeNotFromVault)
    } else if now >= r.cred.not_after {
        Err(Error::CredentialExpired)
    } else {
        let body = crate::model::member_add_encoding(r.cred, r.cred.caps, crate::crypto::zeros32(), gen);
        match event_sign_result(local_event(r, channel, crate::crypto::zeros32(), T_MEMBER_ADD, body), r) {
            Err(x) => Err(x),
            Ok(g) => match screen_result(Seq::empty(), g, now) {
                Err(x) => Err(x),
                Ok(_) => {
                    let c0 = crate::chain::empty_chain(None);
                    match insert_result(c0, g, true, true).1 {
                        Err(x) => Err(x),
                        Ok(_) => {
                            let unsigned = crate::model::InviteView {
                                channel_id: channel,
                                handle,
                                handle_gen: gen,
                                expires: sat_add(now, INVITE_TTL_SECS),
                                token,
                                genesis: g,
                                sig: zeros64(),
                            };
                            Ok(
                                (
                                    insert_result(c0, g, true, true).0,
                                    crate::model::InviteView {
                                        sig: crate::crypto::ed25519_sig_of(r.sign, crate::model::invite_canonical(unsigned)),
                                        ..unsigned
                                    },
                                ),
                            )
                        },
                    }
                },
            },
        }
    }
}

pub fn invite_mint(
    handles: &Handles,
    runtime: &RuntimeSecret,
    root: &RootSecret,
    now: u64,
    channel: [u8; 32],
    token: [u8; 32],
) -> (res: Result<(Chain, crate::model::Invite), Error>)
    ensures
        match mint_result(handles.gen, handles.current@, runtime@, root@, now, channel@, token@) {
            Ok((c, i)) => res matches Ok((ch, inv)) && ch.wf() && ch@ == c && inv@ == i,
            Err(e) => res matches Err(x) && x == e,
        },
{
    if !crate::codec::eq32(&runtime.cred.principal_id(), &root.principal_id()) {
        return Err(Error::RuntimeNotFromVault);
    }
    if now >= runtime.cred.not_after {
        return Err(Error::CredentialExpired);
    }
    let zero = [0u8; 32];
    proof {
        assert(zero@ =~= crate::crypto::zeros32()) by {
            assert(forall|i: int| 0 <= i < 32 ==> zero@[i] == 0u8);
        }
    }
    let body = crate::model::member_add_body(&runtime.cred, runtime.cred.caps, &zero, handles.gen);
    let event = sign_local(runtime, &channel, &zero, T_MEMBER_ADD, body)?;
    let mut chain = Chain::new();
    proof {
        assert(chain@.events =~= Seq::<EventView>::empty());
    }
    chain.screen(&event, now)?;
    chain.append(event.duplicate())?;
    let sig = [0u8; 64];
    proof {
        assert(sig@ =~= zeros64()) by {
            assert(forall|i: int| 0 <= i < 64 ==> sig@[i] == 0u8);
        }
    }
    let expires = if now > u64::MAX - INVITE_TTL_SECS { u64::MAX } else { now + INVITE_TTL_SECS };
    let invite = crate::model::sign_invite(
        crate::model::Invite {
            channel_id: channel,
            handle: handles.current.clone(),
            handle_gen: handles.gen,
            expires,
            token,
            genesis: event,
            sig,
        },
        runtime,
    )?;
    Ok((chain, invite))
}

/// Reads an invite and checks that it has not expired at `now`.
pub fn check_invite(bytes: &[u8], now: u64) -> (res: Result<crate::model::Invite, Error>)
    ensures
        match crate::model::invite_decode_result(bytes@) {
            Err(e) => res matches Err(x) && x == e,
            Ok(i) => if now >= i.expires {
                res matches Err(x) && x == Error::InviteExpired
            } else {
                res matches Ok(inv) && inv@ == i
            },
        },
{
    let invite = crate::model::Invite::decode(bytes)?;
    if now >= invite.expires {
        return Err(Error::InviteExpired);
    }
    Ok(invite)
}

/// Joining a channel from an invite: the runtime must be live at `now`; the
/// log starts with the invite's genesis, then takes the runtime's own
/// `member_add`, spending the invite's token. Gives the log, the join
/// event and the inviter's credential.
pub open spec fn join_result(i: crate::model::InviteView, r: RuntimeView, now: u64) -> Result<
    (ChainView, EventView, CredentialView),
    Error,
> {
    if now >= r.cred.not_after {
        Err(Error::CredentialExpired)
    } else {
        match crate::model::member_add_result(i.genesis.body) {
            Err(x) => Err(x),
            Ok((inviter, _c, _t, _g)) => {
                let c0 = crate::chain::empty_chain(None);
                match insert_result(c0, i.genesis, true, true).1 {
                    Err(x) => Err(x),
                    Ok(_) => {
                        let c1 = insert_result(c0, i.genesis, true, true).0;
                        let body = crate::model::member_add_encoding(r.cred, r.cred.caps, i.token, i.handle_gen);
                        match event_sign_result(
                            local_event(r, i.channel_id, crate::model::event_id(i.genesis), T_MEMBER_ADD, body),
                            r,
                        ) {
                            Err(x) => Err(x),
                            Ok(j) => match screen_result(c1.events, j, now) {
                                Err(x) => Err(x),
                                Ok(_) => match insert_result(c1, j, true, true).1 {
                                    Err(x) => Err(x),
                                    Ok(_) => Ok((insert_result(c1, j, true, true).0, j, inviter)),
                                },
                            },
                        }
                    },
                }
            },
        }
    }
}

pub fn invite_accept(invite: &crate::model::Invite, runtime: &RuntimeSecret, now: u64) -> (res: Result<
    (Chain, Event, Credential),
    Error,
>)
    ensures
        match join_result(invite@, runtime@, now) {
            Ok((c, j, inv)) => res matches Ok((ch, ev, cr)) && ch.wf() && ch@ == c && ev@ == j && cr@ == inv,
            Err(e) => res matches Err(x) && x == e,
        },
{
    if now >= runtime.cred.not_after {
        return Err(Error::CredentialExpired);
    }
    let (inviter, _caps, _tok, _gen) = crate::model::parse_member_add(invite.genesis.body.as_slice())?;
    let mut chain = Chain::new();
    chain.append(invite.genesis.duplicate())?;
    let body = crate::model::member_add_body(&runtime.cred, runtime.cred.caps, &invite.token, invite.handle_gen);
    let join = sign_local(runtime, &invite.channel_id, &invite.genesis.id(), T_MEMBER_ADD, body)?;
    chain.screen(&join, now)?;
    chain.append(join.duplicate())?;
    Ok((chain, join, inviter))
}

} // verus!
