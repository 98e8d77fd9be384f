use vstd::prelude::*;

use crate::codec::hex_bytes;
use crate::error::Error;
use crate::metrics::{append_dec, append_hex, push_str_bytes};
use crate::model::{
    cred_id, id_body_result, member_add_result, parse_id_body, parse_member_add, parse_proposal,
    proposal_result, Event, EventView, CAP_ACCEPT, CAP_APPEND, CAP_PROPOSE, CAP_SPAWN, T_ACCEPT,
    T_ACCEPT_REVERT, T_CRED_REVOKE, T_MEMBER_ADD, T_PROCEED, T_PROPOSE, T_PROPOSE_REVERT, T_SHARE,
};
use crate::text::{dec, string_of_utf8};
use vstd::string::StringSliceAdditionalSpecFns;
use vstd::utf8::{encode_utf8, valid_utf8};

verus! {

broadcast use vstd::utf8::group_utf8_lib;

/// A name in a comma-separated list: a comma first unless it is the first.
pub open spec fn cap_piece(set: bool, any_before: bool, name: Seq<u8>) -> Seq<u8> {
    if set {
        (if any_before { ",".spec_bytes() } else { Seq::empty() }) + name
    } else {
        Seq::empty()
    }
}

/// The capability names a grant holds, joined by commas, or `none`.
pub open spec fn caps_text(caps: u32) -> Seq<u8> {
    let a = caps & CAP_APPEND != 0;
    let p = caps & CAP_PROPOSE != 0;
    let c = caps & CAP_ACCEPT != 0;
    let s = caps & CAP_SPAWN != 0;
    if !(a || p || c || s) {
        "none".spec_bytes()
    } else {
        cap_piece(a, false, "append_frame".spec_bytes()) + cap_piece(p, a, "propose".spec_bytes())
            + cap_piece(c, a || p, "accept".spec_bytes()) + cap_piece(s, a || p || c, "spawn_member".spec_bytes())
    }
}

fn append_piece(b: &mut Vec<u8>, set: bool, any_before: bool, name: &str)
    ensures
        final(b)@ == old(b)@ + cap_piece(set, any_before, name.spec_bytes()),
        valid_utf8(old(b)@) ==> valid_utf8(final(b)@),
{
    if set {
        if any_before {
            push_str_bytes(b, ",");
        }
        push_str_bytes(b, name);
    }
    assert(b@ =~= old(b)@ + cap_piece(set, any_before, name.spec_bytes()));
}

/// The line for an event that names one id.
pub open spec fn id_line(name: &str, body: Seq<u8>) -> Seq<u8> {
    match id_body_result(body) {
        Ok(id) => name.spec_bytes() + " ".spec_bytes() + hex_bytes(id),
        Err(_) => name.spec_bytes() + " unparsed".spec_bytes(),
    }
}

/// The line a person reads for one commitment event. A sealed identity
/// share shows its size, never its content.
pub open spec fn event_line(e: EventView) -> Seq<u8> {
    if e.typ == T_MEMBER_ADD {
        match member_add_result(e.body) {
            Ok((c, caps, _t, _g)) => "member_add cred ".spec_bytes() + hex_bytes(cred_id(c)) + " caps ".spec_bytes()
                + caps_text(caps),
            Err(_) => "member_add unparsed".spec_bytes(),
        }
    } else if e.typ == T_PROPOSE {
        match proposal_result(e.body) {
            Ok((id, hash)) => "propose proposal ".spec_bytes() + hex_bytes(id) + " content ".spec_bytes()
                + hex_bytes(hash),
            Err(_) => "propose unparsed".spec_bytes(),
        }
    } else if e.typ == T_ACCEPT {
        id_line("accept", e.body)
    } else if e.typ == T_PROCEED {
        id_line("proceed", e.body)
    } else if e.typ == T_PROPOSE_REVERT {
        id_line("propose_revert", e.body)
    } else if e.typ == T_ACCEPT_REVERT {
        id_line("accept_revert", e.body)
    } else if e.typ == T_SHARE {
        "share_identity sealed ".spec_bytes() + dec(e.body.len()) + " bytes".spec_bytes()
    } else if e.typ == T_CRED_REVOKE {
        id_line("cred_revoke", e.body)
    } else {
        "event ".spec_bytes() + dec(e.typ as nat)
    }
}

/// One line per event, in log order.
pub open spec fn explain_text(evs: Seq<EventView>) -> Seq<u8>
    decreases evs.len(),
{
    if evs.len() == 0 {
        Seq::empty()
    } else {
        explain_text(evs.drop_last()) + event_line(evs.last()) + "\n".spec_bytes()
    }
}

fn append_caps(b: &mut Vec<u8>, caps: u32)
    ensures
        final(b)@ == old(b)@ + caps_text(caps),
        valid_utf8(old(b)@) ==> valid_utf8(final(b)@),
{
    let a = caps & CAP_APPEND != 0;
    let p = caps & CAP_PROPOSE != 0;
    let c = caps & CAP_ACCEPT != 0;
    let s = caps & CAP_SPAWN != 0;
    if !(a || p || c || s) {
        push_str_bytes(b, "none");
        return;
    }
    append_piece(b, a, false, "append_frame");
    append_piece(b, p, a, "propose");
    append_piece(b, c, a || p, "accept");
    append_piece(b, s, a || p || c, "spawn_member");
    assert(b@ =~= old(b)@ + caps_text(caps));
}

fn append_id_line(b: &mut Vec<u8>, name: &str, body: &[u8])
    ensures
        final(b)@ == old(b)@ + id_line(name, body@),
        valid_utf8(old(b)@) ==> valid_utf8(final(b)@),
{
    push_str_bytes(b, name);
    match parse_id_body(body) {
        Ok(id) => {
            push_str_bytes(b, " ");
            append_hex(b, &id);
        },
        Err(_) => {
            push_str_bytes(b, " unparsed");
        },
    }
    assert(b@ =~= old(b)@ + id_line(name, body@));
}

fn append_line(b: &mut Vec<u8>, event: &Event)
    ensures
        final(b)@ == old(b)@ + event_line(event@),
        valid_utf8(old(b)@) ==> valid_utf8(final(b)@),
{
    let typ = event.typ;
    let body = event.body.as_slice();
    if typ == T_MEMBER_ADD {
        match parse_member_add(body) {
            Ok((cred, caps, _token, _gen)) => {
                push_str_bytes(b, "member_add cred ");
                append_hex(b, &cred.id());
                push_str_bytes(b, " caps ");
                append_caps(b, caps);
            },
            Err(_) => {
                push_str_bytes(b, "member_add unparsed");
            },
        }
    } else if typ == T_PROPOSE {
        match parse_proposal(body) {
            Ok((id, hash)) => {
                push_str_bytes(b, "propose proposal ");
                append_hex(b, &id);
                push_str_bytes(b, " content ");
                append_hex(b, &hash);
            },
            Err(_) => {
                push_str_bytes(b, "propose unparsed");
            },
        }
    } else if typ == T_ACCEPT {
        append_id_line(b, "accept", body);
    } else if typ == T_PROCEED {
        append_id_line(b, "proceed", body);
    } else if typ == T_PROPOSE_REVERT {
        append_id_line(b, "propose_revert", body);
    } else if typ == T_ACCEPT_REVERT {
        append_id_line(b, "accept_revert", body);
    } else if typ == T_SHARE {
        push_str_bytes(b, "share_identity sealed ");
        append_dec(b, body.len() as u64);
        push_str_bytes(b, " bytes");
    } else if typ == T_CRED_REVOKE {
        append_id_line(b, "cred_revoke", body);
    } else {
        push_str_bytes(b, "event ");
        append_dec(b, typ as u64);
    }
    assert(b@ =~= old(b)@ + event_line(event@));
}

/// One linear pass over the events; nothing is written back.
pub fn events(list: &[Event]) -> (out: String)
    ensures
        encode_utf8(out@) == explain_text(list@.map_values(|e: Event| e@)),
{
    let ghost evs = list@.map_values(|e: Event| e@);
    let mut b: Vec<u8> = Vec::new();
    proof {
        assert(b@ =~= encode_utf8(Seq::<char>::empty()));
    }
    let mut i: usize = 0;
    while i < list.len()
        invariant
            evs == list@.map_values(|e: Event| e@),
            i <= list@.len(),
            valid_utf8(b@),
            b@ == explain_text(evs.subrange(0, i as int)),
        decreases list@.len() - i,
    {
        append_line(&mut b, &list[i]);
        push_str_bytes(&mut b, "\n");
        proof {
            let q = evs.subrange(0, i + 1);
            assert(q.drop_last() =~= evs.subrange(0, i as int));
            assert(q.last() == list@[i as int]@);
        }
        i = i + 1;
    }
    proof {
        assert(evs.subrange(0, i as int) =~= evs);
    }
    string_of_utf8(b)
}

} // verus!
