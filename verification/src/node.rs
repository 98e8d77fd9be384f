use vstd::prelude::*;

use crate::error::Error;
use crate::metrics::{find_in, line_cut, lemma_skip_bounds, lemma_token_bounds, token_end};
use crate::text::{
    chars_match, chars_of, find_char, is_whitespace, is_ws, next_char, parse_uint, parse_uint_bytes,
    str_eq, trim_range, ws_back, ws_skip,
};
use vstd::string::{StrSliceExecFns, StringSliceAdditionalSpecFns};
use vstd::utf8::encode_utf8;

verus! {

broadcast use vstd::utf8::group_utf8_lib;

pub open spec fn strings_of(v: Seq<String>) -> Seq<Seq<char>> {
    v.map_values(|s: String| s@)
}

/// The value after the first `--name` flag that has one.
pub open spec fn flag_value(args: Seq<Seq<char>>, key: Seq<char>, i: int) -> Option<Seq<char>>
    decreases args.len() - i,
{
    if i < 0 || i + 1 >= args.len() {
        None
    } else if args[i] == key {
        Some(args[i + 1])
    } else {
        flag_value(args, key, i + 1)
    }
}

pub open spec fn flag_key(name: Seq<char>) -> Seq<char> {
    seq!['-', '-'] + name
}

fn flag_key_exec(name: &str) -> (k: Vec<char>)
    ensures
        k@ == flag_key(name@),
{
    let mut k: Vec<char> = Vec::new();
    k.push('-');
    k.push('-');
    let cs = chars_of(name);
    let mut i: usize = 0;
    while i < cs.len()
        invariant
            i <= cs@.len(),
            cs@ == name@,
            k@ == seq!['-', '-'] + cs@.subrange(0, i as int),
        decreases cs@.len() - i,
    {
        k.push(cs[i]);
        i = i + 1;
        assert(k@ =~= seq!['-', '-'] + cs@.subrange(0, i as int));
    }
    assert(cs@.subrange(0, i as int) =~= cs@);
    k
}

/// The value of flag `--name`, if the arguments give it one.
pub fn optional(args: &[String], name: &str) -> (r: Option<String>)
    ensures
        match flag_value(strings_of(args@), flag_key(name@), 0) {
            Some(v) => r matches Some(s) && s@ == v,
            None => r is None,
        },
{
    let ghost a = strings_of(args@);
    let key = flag_key_exec(name);
    let mut i: usize = 0;
    while args.len() > 0 && i < args.len() - 1
        invariant
            a == strings_of(args@),
            key@ == flag_key(name@),
            flag_value(a, key@, 0) == flag_value(a, key@, i as int),
        decreases args@.len() - i,
    {
        let arg = chars_of(args[i].as_str());
        let n = arg.len();
        proof {
            assert(a[i as int] == args@[i as int]@);
            assert(arg@.subrange(0, n as int) =~= arg@);
        }
        if chars_match(&arg, 0, n, key.as_slice()) {
            proof {
                assert(a[i + 1] == args@[i + 1]@);
            }
            return Some(args[i + 1].clone());
        }
        i = i + 1;
    }
    None
}

/// The value of flag `--name`, which must be given.
pub fn require(args: &[String], name: &str) -> (res: Result<String, Error>)
    ensures
        match flag_value(strings_of(args@), flag_key(name@), 0) {
            Some(v) => res matches Ok(s) && s@ == v,
            None => res matches Err(Error::MissingFlag(n)) && n@ == name@,
        },
{
    match optional(args, name) {
        Some(v) => Ok(v),
        None => Err(Error::MissingFlag(name.to_owned())),
    }
}

/// A runtime name: 1 to 64 bytes of ASCII letters, digits, `-` and `_`.
pub open spec fn name_char_ok(c: char) -> bool {
    ('a' <= c <= 'z') || ('A' <= c <= 'Z') || ('0' <= c <= '9') || c == '-' || c == '_'
}

pub open spec fn name_ok(s: Seq<char>) -> bool {
    &&& s.len() > 0
    &&& encode_utf8(s).len() <= 64
    &&& forall|i: int| 0 <= i < s.len() ==> name_char_ok(#[trigger] s[i])
}

/// The `--name` flag, checked as a runtime name.
pub fn require_name(args: &[String]) -> (res: Result<String, Error>)
    ensures
        match flag_value(strings_of(args@), flag_key("name"@), 0) {
            Some(v) => if name_ok(v) {
                res matches Ok(s) && s@ == v
            } else {
                res matches Err(e) && e == Error::BadRuntimeName
            },
            None => res matches Err(Error::MissingFlag(n)) && n@ == "name"@,
        },
{
    let name = require(args, "name")?;
    let len = name.as_str().as_bytes().len();
    let cs = chars_of(name.as_str());
    if cs.len() == 0 || len > 64 {
        return Err(Error::BadRuntimeName);
    }
    let mut i: usize = 0;
    while i < cs.len()
        invariant
            i <= cs@.len(),
            cs@ == name@,
            cs@.len() > 0,
            encode_utf8(name@).len() <= 64,
            flag_value(strings_of(args@), flag_key("name"@), 0) == Some(name@),
            forall|k: int| 0 <= k < i ==> name_char_ok(#[trigger] cs@[k]),
        decreases cs@.len() - i,
    {
        let c = cs[i];
        if !(('a' <= c && c <= 'z') || ('A' <= c && c <= 'Z') || ('0' <= c && c <= '9') || c == '-' || c == '_') {
            return Err(Error::BadRuntimeName);
        }
        i = i + 1;
    }
    Ok(name)
}

/// A time to live: a number of seconds, or of minutes, hours or seconds
/// with the suffix `m`, `h` or `s`; the product stops at the largest `u64`.
pub open spec fn ttl_result(s: Seq<char>) -> Option<u64> {
    let (num, mul) = if s.len() > 0 && s.last() == 'h' {
        (s.drop_last(), 3600nat)
    } else if s.len() > 0 && s.last() == 'm' {
        (s.drop_last(), 60nat)
    } else if s.len() > 0 && s.last() == 's' {
        (s.drop_last(), 1nat)
    } else {
        (s, 1nat)
    };
    match parse_uint(encode_utf8(num), u64::MAX as nat) {
        None => None,
        Some(n) => Some(if n * mul > u64::MAX { u64::MAX } else { (n * mul) as u64 }),
    }
}

pub fn parse_ttl(s: &str) -> (res: Result<u64, Error>)
    ensures
        match ttl_result(s@) {
            Some(v) => res == Ok::<u64, Error>(v),
            None => res == Err::<u64, Error>(Error::BadTtl),
        },
{
    let cs = chars_of(s);
    let n = cs.len();
    let (end, mul): (usize, u64) = if n > 0 && cs[n - 1] == 'h' {
        (n - 1, 3600)
    } else if n > 0 && cs[n - 1] == 'm' {
        (n - 1, 60)
    } else if n > 0 && cs[n - 1] == 's' {
        (n - 1, 1)
    } else {
        (n, 1)
    };
    let num = s.substring_char(0, end);
    proof {
        if end < n {
            assert(num@ =~= s@.drop_last());
        } else {
            assert(num@ =~= s@);
        }
    }
    let v = match parse_uint_bytes(num.as_bytes(), u64::MAX) {
        Some(v) => v,
        None => return Err(Error::BadTtl),
    };
    let out = if mul != 0 && v > u64::MAX / mul {
        u64::MAX
    } else {
        v * mul
    };
    proof {
        if mul != 0 && v > u64::MAX / mul {
            assert(v * mul > u64::MAX) by (nonlinear_arith)
                requires
                    mul > 0,
                    v > u64::MAX / mul,
            ;
        } else {
            assert(v * mul <= u64::MAX) by (nonlinear_arith)
                requires
                    mul > 0,
                    v <= u64::MAX / mul,
            ;
        }
    }
    Ok(out)
}

// ---------------------------------------------------------------------------
// Node policy
// ---------------------------------------------------------------------------

/// The node's policy: the largest frame a plugin may send, and the actions
/// that need the vault's confirm token.
pub struct Policy {
    pub max_frame_bytes: usize,
    pub confirm: Vec<String>,
}

/// The default frame limit, 4 MiB.
pub const DEFAULT_MAX_FRAME: usize = 4194304;

pub fn default_policy() -> (p: Policy)
    ensures
        p.max_frame_bytes == DEFAULT_MAX_FRAME,
        p.confirm@.len() == 0,
{
    Policy { max_frame_bytes: DEFAULT_MAX_FRAME, confirm: Vec::new() }
}

/// The actions a policy can gate.
pub open spec fn is_gate(v: Seq<char>) -> bool {
    v == "share-identity"@ || v == "receipt-proceed"@ || v == "receipt-propose-revert"@ || v
        == "receipt-accept"@
}

/// Why a policy file is refused.
pub enum PolicyFault {
    BadLine(Seq<char>),
    BadMax,
    UnknownGate(Seq<char>),
    UnknownKey(Seq<char>),
}

/// One line of a policy file, `s[lo..hi]` once trimmed: blank lines and
/// `#` comments say nothing; any other line is exactly a key and a value.
pub open spec fn policy_line(s: Seq<char>, lo: int, hi: int, max: usize, confirm: Seq<Seq<char>>) -> Result<
    (usize, Seq<Seq<char>>),
    PolicyFault,
> {
    if lo >= hi || s[lo] == '#' {
        Ok((max, confirm))
    } else {
        let kb = token_end(s, lo, hi);
        let va = ws_skip(s, kb, hi);
        if va >= hi {
            Err(PolicyFault::BadLine(s.subrange(lo, hi)))
        } else {
            let vb = token_end(s, va, hi);
            if ws_skip(s, vb, hi) < hi {
                Err(PolicyFault::BadLine(s.subrange(lo, hi)))
            } else {
                let key = s.subrange(lo, kb);
                let value = s.subrange(va, vb);
                if key == "max_frame_bytes"@ {
                    match parse_uint(encode_utf8(value), usize::MAX as nat) {
                        None => Err(PolicyFault::BadMax),
                        Some(v) => Ok((v as usize, confirm)),
                    }
                } else if key == "confirm"@ {
                    if is_gate(value) {
                        Ok((max, confirm.push(value)))
                    } else {
                        Err(PolicyFault::UnknownGate(value))
                    }
                } else {
                    Err(PolicyFault::UnknownKey(key))
                }
            }
        }
    }
}

/// The policy lines from index `i` on, read in order.
pub open spec fn policy_scan(s: Seq<char>, i: int, max: usize, confirm: Seq<Seq<char>>) -> Result<
    (usize, Seq<Seq<char>>),
    PolicyFault,
>
    decreases s.len() - i,
{
    if i >= s.len() {
        Ok((max, confirm))
    } else {
        let k = next_char(s, i, '\n');
        proof {
            crate::model::lemma_next_char_bounds(s, i, '\n');
        }
        let e = line_cut(s, i, k);
        let lo = ws_skip(s, i, e);
        let hi = ws_back(s, lo, e);
        match policy_line(s, lo, hi, max, confirm) {
            Err(f) => Err(f),
            Ok((m2, c2)) => if k >= s.len() {
                Ok((m2, c2))
            } else {
                policy_scan(s, k + 1, m2, c2)
            },
        }
    }
}

pub open spec fn fault_of(e: Error) -> Option<PolicyFault> {
    match e {
        Error::BadPolicyLine(l) => Some(PolicyFault::BadLine(l@)),
        Error::BadMaxFrameBytes => Some(PolicyFault::BadMax),
        Error::UnknownConfirmGate(v) => Some(PolicyFault::UnknownGate(v@)),
        Error::UnknownPolicyKey(k) => Some(PolicyFault::UnknownKey(k@)),
        _ => None,
    }
}

fn is_gate_exec(cs: &Vec<char>, a: usize, b: usize) -> (r: bool)
    requires
        a <= b <= cs@.len(),
    ensures
        r == is_gate(cs@.subrange(a as int, b as int)),
{
    let g1 = chars_of("share-identity");
    let g2 = chars_of("receipt-proceed");
    let g3 = chars_of("receipt-propose-revert");
    let g4 = chars_of("receipt-accept");
    chars_match(cs, a, b, g1.as_slice()) || chars_match(cs, a, b, g2.as_slice()) || chars_match(
        cs,
        a,
        b,
        g3.as_slice(),
    ) || chars_match(cs, a, b, g4.as_slice())
}

fn skip_ws(cs: &Vec<char>, i: usize, e: usize) -> (a: usize)
    requires
        i <= e <= cs@.len(),
    ensures
        a == ws_skip(cs@, i as int, e as int),
        i <= a <= e,
{
    let mut a = i;
    while a < e && is_whitespace(cs[a])
        invariant
            i <= a <= e <= cs@.len(),
            ws_skip(cs@, i as int, e as int) == ws_skip(cs@, a as int, e as int),
        decreases e - a,
    {
        a = a + 1;
    }
    a
}

fn tok_end(cs: &Vec<char>, i: usize, e: usize) -> (b: usize)
    requires
        i <= e <= cs@.len(),
    ensures
        b == token_end(cs@, i as int, e as int),
        i <= b <= e,
{
    let mut b = i;
    while b < e && !is_whitespace(cs[b])
        invariant
            i <= b <= e <= cs@.len(),
            token_end(cs@, i as int, e as int) == token_end(cs@, b as int, e as int),
        decreases e - b,
    {
        b = b + 1;
    }
    b
}

/// Reads one trimmed policy line into the policy.
fn apply_policy_line(text: &str, cs: &Vec<char>, lo: usize, hi: usize, policy: &mut Policy) -> (res: Result<(), Error>)
    requires
        cs@ == text@,
        lo <= hi <= cs@.len(),
    ensures
        match policy_line(cs@, lo as int, hi as int, old(policy).max_frame_bytes, strings_of(old(policy).confirm@)) {
            Ok((m, c)) => res is Ok && final(policy).max_frame_bytes == m && strings_of(final(policy).confirm@) == c,
            Err(f) => res matches Err(e) && fault_of(e) == Some(f),
        },
{
    if lo >= hi || cs[lo] == '#' {
        return Ok(());
    }
    let kb = tok_end(cs, lo, hi);
    let va = skip_ws(cs, kb, hi);
    if va >= hi {
        return Err(Error::BadPolicyLine(text.substring_char(lo, hi).to_owned()));
    }
    let vb = tok_end(cs, va, hi);
    let rest = skip_ws(cs, vb, hi);
    if rest < hi {
        return Err(Error::BadPolicyLine(text.substring_char(lo, hi).to_owned()));
    }
    let max_w = chars_of("max_frame_bytes");
    let confirm_w = chars_of("confirm");
    if chars_match(cs, lo, kb, max_w.as_slice()) {
        let value = text.substring_char(va, vb);
        match parse_uint_bytes(value.as_bytes(), usize::MAX as u64) {
            Some(v) => {
                policy.max_frame_bytes = v as usize;
                Ok(())
            },
            None => Err(Error::BadMaxFrameBytes),
        }
    } else if chars_match(cs, lo, kb, confirm_w.as_slice()) {
        if is_gate_exec(cs, va, vb) {
            let v = text.substring_char(va, vb).to_owned();
            let ghost before = policy.confirm@;
            policy.confirm.push(v);
            proof {
                assert(strings_of(policy.confirm@) =~= strings_of(before).push(cs@.subrange(va as int, vb as int)));
            }
            Ok(())
        } else {
            Err(Error::UnknownConfirmGate(text.substring_char(va, vb).to_owned()))
        }
    } else {
        Err(Error::UnknownPolicyKey(text.substring_char(lo, kb).to_owned()))
    }
}

/// Reads a policy file over the defaults.
pub fn parse_policy(text: &str) -> (res: Result<Policy, Error>)
    ensures
        match policy_scan(text@, 0, DEFAULT_MAX_FRAME, Seq::empty()) {
            Ok((m, c)) => res matches Ok(p) && p.max_frame_bytes == m && strings_of(p.confirm@) == c,
            Err(f) => res matches Err(e) && fault_of(e) == Some(f),
        },
{
    let cs = chars_of(text);
    let n = cs.len();
    let mut policy = default_policy();
    proof {
        assert(strings_of(policy.confirm@) =~= Seq::<Seq<char>>::empty());
    }
    let mut i: usize = 0;
    loop
        invariant
            cs@ == text@,
            n == cs@.len(),
            i <= n,
            policy_scan(text@, 0, DEFAULT_MAX_FRAME, Seq::empty()) == policy_scan(
                text@,
                i as int,
                policy.max_frame_bytes,
                strings_of(policy.confirm@),
            ),
        decreases n - i,
    {
        if i >= n {
            return Ok(policy);
        }
        let k = find_char(&cs, i, '\n');
        let e = if k < n && k > i && cs[k - 1] == '\r' {
            k - 1
        } else {
            k
        };
        let (lo, hi) = trim_range(&cs, i, e);
        apply_policy_line(text, &cs, lo, hi, &mut policy)?;
        if k >= n {
            return Ok(policy);
        }
        i = k + 1;
    }
}

/// Whether the policy asks for the confirm token before `gate`.
pub fn gate_needs_confirm(policy: &Policy, gate: &str) -> (r: bool)
    ensures
        r == strings_of(policy.confirm@).contains(gate@),
{
    let mut i: usize = 0;
    while i < policy.confirm.len()
        invariant
            i <= policy.confirm@.len(),
            forall|k: int| 0 <= k < i ==> policy.confirm@[k]@ != gate@,
        decreases policy.confirm@.len() - i,
    {
        if str_eq(policy.confirm[i].as_str(), gate) {
            proof {
                assert(strings_of(policy.confirm@)[i as int] == gate@);
            }
            return true;
        }
        i = i + 1;
    }
    proof {
        if strings_of(policy.confirm@).contains(gate@) {
            let k = choose|k: int| 0 <= k < strings_of(policy.confirm@).len() && strings_of(policy.confirm@)[k] == gate@;
            assert(policy.confirm@[k]@ == gate@);
        }
    }
    false
}

/// Whether a given confirm token is the vault's, leading and trailing
/// whitespace aside.
pub fn confirm_matches(given: &str, expected: &str) -> (r: bool)
    ensures
        r == (crate::text::trimmed(given@, 0, given@.len() as int) == crate::text::trimmed(
            expected@,
            0,
            expected@.len() as int,
        )),
{
    let g = chars_of(given);
    let x = chars_of(expected);
    let (ga, gb) = trim_range(&g, 0, g.len());
    let (xa, xb) = trim_range(&x, 0, x.len());
    proof {
        assert(crate::text::trimmed(given@, 0, given@.len() as int) == g@.subrange(ga as int, gb as int));
        assert(crate::text::trimmed(expected@, 0, expected@.len() as int) == x@.subrange(xa as int, xb as int));
    }
    if gb - ga != xb - xa {
        return false;
    }
    let mut i: usize = 0;
    while i < gb - ga
        invariant
            g@ == given@,
            x@ == expected@,
            ga <= gb <= g@.len(),
            xa <= xb <= x@.len(),
            gb - ga == xb - xa,
            i <= gb - ga,
            crate::text::trimmed(given@, 0, given@.len() as int) == g@.subrange(ga as int, gb as int),
            crate::text::trimmed(expected@, 0, expected@.len() as int) == x@.subrange(xa as int, xb as int),
            forall|k: int| 0 <= k < i ==> #[trigger] g@.subrange(ga as int, gb as int)[k] == x@.subrange(xa as int, xb as int)[k],
        decreases gb - ga - i,
    {
        if g[ga + i] != x[xa + i] {
            proof {
                assert(g@.subrange(ga as int, gb as int)[i as int] != x@.subrange(xa as int, xb as int)[i as int]);
            }
            return false;
        }
        i = i + 1;
    }
    assert(g@.subrange(ga as int, gb as int) =~= x@.subrange(xa as int, xb as int));
    true
}

} // verus!
