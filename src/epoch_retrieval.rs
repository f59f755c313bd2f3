//! The request for an epoch-change proof between two epochs.
use vstd::prelude::*;
use vstd::string::StringSliceAdditionalSpecFns;

verus! {

/// Request to get an epoch-change proof from `start_epoch` to `end_epoch`.
#[derive(Clone, Copy, Debug, PartialEq, Eq, Structural)]
pub struct EpochRetrievalRequest {
    pub start_epoch: u64,
    pub end_epoch: u64,
}

/// The decimal digits of `n`, as ASCII.
pub open spec fn decimal(n: nat) -> Seq<u8>
    decreases n,
{
    if n < 10 {
        seq![(48 + n) as u8]
    } else {
        decimal(n / 10) + seq![(48 + n % 10) as u8]
    }
}

/// The text of a request.
pub open spec fn request_text(start_epoch: u64, end_epoch: u64) -> Seq<u8> {
    "EpochRetrievalRequest: start_epoch ".spec_bytes() + decimal(start_epoch as nat)
        + ", end_epoch ".spec_bytes() + decimal(end_epoch as nat)
}

fn push_decimal(out: &mut Vec<u8>, n: u64)
    ensures
        final(out)@ == old(out)@ + decimal(n as nat),
    decreases n,
{
    if n >= 10 {
        push_decimal(out, n / 10);
    }
    out.push(48u8 + (n % 10) as u8);
    assert(final(out)@ =~= old(out)@ + decimal(n as nat));
}

fn push_str(out: &mut Vec<u8>, s: &str)
    ensures
        final(out)@ == old(out)@ + s.spec_bytes(),
{
    let b = s.as_bytes();
    let mut i: usize = 0;
    while i < b.len()
        invariant
            i <= b@.len(),
            b@ == s.spec_bytes(),
            out@ == old(out)@ + b@.subrange(0, i as int),
        decreases b@.len() - i,
    {
        out.push(b[i]);
        i = i + 1;
        assert(out@ =~= old(out)@ + b@.subrange(0, i as int));
    }
    assert(b@.subrange(0, b@.len() as int) =~= b@);
}

impl EpochRetrievalRequest {
    pub fn new(start_epoch: u64, end_epoch: u64) -> (r: Self)
        ensures
            r.start_epoch == start_epoch,
            r.end_epoch == end_epoch,
    {
        EpochRetrievalRequest { start_epoch, end_epoch }
    }

    /// The request as text, in ASCII bytes.
    pub fn fmt(&self) -> (r: Vec<u8>)
        ensures
            r@ == request_text(self.start_epoch, self.end_epoch),
    {
        let mut out: Vec<u8> = Vec::new();
        push_str(&mut out, "EpochRetrievalRequest: start_epoch ");
        push_decimal(&mut out, self.start_epoch);
        push_str(&mut out, ", end_epoch ");
        push_decimal(&mut out, self.end_epoch);
        assert(out@ =~= request_text(self.start_epoch, self.end_epoch));
        out
    }
}

} // verus!
