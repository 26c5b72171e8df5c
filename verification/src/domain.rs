//! Mirror-domain discovery: one unauthenticated probe per known
//! candidate hostname; a redirect location names the current domain, a
//! response with no redirect makes the candidate itself canonical, and
//! the first successful candidate wins.

use vstd::prelude::*;
use crate::errors::YggError;

verus! {

/// What one candidate's probe produced: a transport failure, a
/// response with no redirect, or a redirect to the given location.
pub enum ProbeOutcome {
    Failed,
    NoRedirect,
    Redirect(String),
}

/// The first index at or after `pos` holding a slash, or the end.
pub open spec fn spec_slash_end(s: Seq<char>, pos: int) -> int
    decreases s.len() - pos,
{
    if pos < 0 || pos >= s.len() {
        pos
    } else if s[pos] == '/' {
        pos
    } else {
        spec_slash_end(s, pos + 1)
    }
}

/// The hostname embedded in a redirect location: the text between its
/// second and third slash, as `split('/')` counts them; absent when the
/// location holds fewer than three slash-separated parts.
pub open spec fn spec_host_of_location(loc: Seq<char>) -> Option<Seq<char>> {
    let a = spec_slash_end(loc, 0);
    if a >= loc.len() {
        None
    } else {
        let b = spec_slash_end(loc, a + 1);
        if b >= loc.len() {
            None
        } else {
            let c = spec_slash_end(loc, b + 1);
            Some(loc.subrange(b + 1, c))
        }
    }
}

/// Find the slash at or after `pos`.
fn slash_end(s: &Vec<char>, pos: usize) -> (r: usize)
    requires
        pos <= s@.len(),
    ensures
        pos <= r <= s@.len(),
        r == spec_slash_end(s@, pos as int),
{
    let mut cur = pos;
    while cur < s.len() && s[cur] != '/'
        invariant
            pos <= cur <= s@.len(),
            spec_slash_end(s@, pos as int) == spec_slash_end(s@, cur as int),
        decreases s@.len() - cur,
    {
        cur += 1;
    }
    cur
}

/// Extract the hostname from a redirect location.
pub fn host_of_location(loc: &str) -> (r: Option<String>)
    ensures
        r matches Some(h) ==> spec_host_of_location(loc@) == Some(h@),
        r is None ==> spec_host_of_location(loc@) is None,
{
    let chars = crate::text::chars_of(loc);
    let a = slash_end(&chars, 0);
    if a == chars.len() {
        return None;
    }
    let b = slash_end(&chars, a + 1);
    if b == chars.len() {
        return None;
    }
    let c = slash_end(&chars, b + 1);
    let mut h = String::new();
    let mut i = b + 1;
    while i < c
        invariant
            b + 1 <= i <= c <= chars@.len(),
            chars@ == loc@,
            h@ == loc@.subrange(b + 1 as int, i as int),
        decreases c - i,
    {
        h = crate::text::push_char(h, chars[i]);
        proof {
            assert(loc@.subrange(b + 1 as int, i + 1 as int) =~= loc@.subrange(
                b + 1 as int,
                i as int,
            ).push(loc@[i as int]));
        }
        i += 1;
    }
    Some(h)
}

/// What one candidate contributes: itself when its probe came back
/// without a redirect, the redirect's hostname when one came back and
/// holds one, nothing otherwise.
pub open spec fn spec_probe_domain(candidate: Seq<char>, outcome: ProbeOutcome) -> Option<
    Seq<char>,
> {
    match outcome {
        ProbeOutcome::Failed => None,
        ProbeOutcome::NoRedirect => Some(candidate),
        ProbeOutcome::Redirect(loc) => spec_host_of_location(loc@),
    }
}

/// The domain the race resolves to: the first candidate, in order, whose
/// outcome yields one.
pub open spec fn spec_resolved_domain(
    candidates: Seq<String>,
    outcomes: Seq<ProbeOutcome>,
) -> Option<Seq<char>>
    decreases candidates.len(),
{
    if candidates.len() == 0 || outcomes.len() == 0 {
        None
    } else {
        match spec_probe_domain(candidates[0]@, outcomes[0]) {
            Some(d) => Some(d),
            None => spec_resolved_domain(candidates.drop_first(), outcomes.drop_first()),
        }
    }
}

/// Resolve the current mirror domain from every candidate's probe
/// outcome: the first candidate that succeeded wins; when every
/// candidate failed, domain resolution as a whole has failed.
pub fn resolve_from_outcomes(candidates: &Vec<String>, outcomes: Vec<ProbeOutcome>) -> (r:
    Result<String, YggError>)
    requires
        candidates@.len() == outcomes@.len(),
    ensures
        r matches Ok(d) ==> spec_resolved_domain(candidates@, outcomes@) == Some(d@),
        r matches Err(e) ==> e == YggError::DomainResolution && spec_resolved_domain(
            candidates@,
            outcomes@,
        ) is None,
{
    let ghost outsg = outcomes@;
    let n = outcomes.len();
    proof {
        assert(outsg.len() == n);
    }
    let mut rest = outcomes;
    let mut i: usize = 0;
    proof {
        assert(candidates@.skip(0int) =~= candidates@);
        assert(outsg.skip(0int) =~= outsg);
    }
    while rest.len() > 0
        invariant
            outcomes@ == outsg,
            outsg.len() <= usize::MAX,
            candidates@.len() == outsg.len(),
            i <= outsg.len(),
            rest@ == outsg.skip(i as int),
            spec_resolved_domain(candidates@, outsg) == spec_resolved_domain(
                candidates@.skip(i as int),
                outsg.skip(i as int),
            ),
        decreases rest@.len(),
    {
        let out = rest.remove(0);
        proof {
            assert(i < outsg.len());
            assert(outsg.skip(i as int)[0] == outsg[i as int]);
            assert(candidates@.skip(i as int)[0] == candidates@[i as int]);
            assert(outsg.skip(i as int).remove(0) =~= outsg.skip(i + 1 as int));
            assert(outsg.skip(i as int).drop_first() =~= outsg.skip(i + 1 as int));
            assert(candidates@.skip(i as int).drop_first() =~= candidates@.skip(i + 1 as int));
        }
        match out {
            ProbeOutcome::Failed => {},
            ProbeOutcome::NoRedirect => {
                let d = clone_str(&candidates[i]);
                return Ok(d);
            },
            ProbeOutcome::Redirect(loc) => {
                match host_of_location(loc.as_str()) {
                    Some(h) => {
                        return Ok(h);
                    },
                    None => {},
                }
            },
        }
        i += 1;
    }
    Err(YggError::DomainResolution)
}

/// Copy a string.
fn clone_str(s: &String) -> (r: String)
    ensures
        r@ == s@,
{
    s.clone()
}

} // verus!
