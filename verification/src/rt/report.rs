//! The message a service logs when its heap runs out, built without
//! allocating.
use vstd::prelude::*;
use vstd::string::*;

use crate::decimal;

verus! {

/// A message in a fixed buffer.
pub struct Report {
    pub buf: [u8; 160],
    pub len: usize,
}

impl Report {
    pub open spec fn wf(&self) -> bool {
        self.len <= 160
    }

    /// The bytes of the message.
    pub open spec fn text(&self) -> Seq<u8> {
        self.buf@.take(self.len as int)
    }

    /// The message.
    pub fn as_bytes(&self) -> (r: &[u8])
        requires
            self.wf(),
        ensures
            r@ == self.text(),
    {
        let all: &[u8] = self.buf.as_slice();
        let (head, _rest) = all.split_at(self.len);
        head
    }

    /// Append `s`, or nothing when it does not fit.
    fn put(&mut self, s: &[u8])
        requires
            old(self).wf(),
        ensures
            final(self).wf(),
            final(self).text() == if old(self).len + s@.len() <= 160 {
                old(self).text() + s@
            } else {
                old(self).text()
            },
            final(self).len == final(self).text().len(),
    {
        let ghost before = self.text();
        if s.len() <= 160 - self.len {
            let at: usize = self.len;
            let mut i: usize = 0;
            while i < s.len()
                invariant
                    i <= s@.len(),
                    at + s@.len() <= 160,
                    self.len == at,
                    self.buf@.len() == 160,
                    before == old(self).text(),
                    before.len() == at,
                    self.buf@.take(at + i) == before + s@.take(i as int),
                decreases s@.len() - i,
            {
                let c: u8 = s[i];
                self.buf[at + i] = c;
                proof {
                    assert(s@.take(i + 1) =~= s@.take(i as int).push(c));
                    assert(self.buf@.take(at + i + 1) =~= (before + s@.take(i as int)).push(c));
                }
                i += 1;
            }
            assert(s@.take(i as int) =~= s@);
            self.len = at + s.len();
        }
    }

    /// Append `v` in decimal.
    fn put_num(&mut self, v: u64)
        requires
            old(self).wf(),
            old(self).len + 20 <= 160,
        ensures
            final(self).wf(),
            final(self).text() == old(self).text() + decimal::decimal(v as nat),
            final(self).len == final(self).text().len(),
    {
        let ghost before = self.text();
        let ghost d = decimal::decimal(v as nat);
        proof {
            decimal::lemma_decimal_u64(v);
        }
        let at: usize = self.len;
        let end: usize = decimal::put_num(&mut self.buf, at, v);
        self.len = end;
        proof {
            assert(d.take(end - at) =~= d);
            assert(self.text() =~= before + d);
        }
    }
}

/// What the allocator says when a request of `want` bytes fails.
pub open spec fn exhaustion_text(want: u64, in_use: u64, peak: u64, failures: u64) -> Seq<u8> {
    "heap: allocation of ".spec_bytes() + decimal::decimal(want as nat)
        + " bytes failed (".spec_bytes() + decimal::decimal(in_use as nat)
        + " B in use, peak ".spec_bytes() + decimal::decimal(peak as nat)
        + " B, failures ".spec_bytes() + decimal::decimal(failures as nat) + ")\n".spec_bytes()
}

/// Report a failed request, but only for the first few failures: silence would
/// leave a service that ran out of memory with no idea how much it had.
pub fn report_exhaustion(want: u64, in_use: u64, peak: u64, failures: u64) -> (r: Option<Report>)
    ensures
        r is Some <==> failures <= 3,
        r matches Some(rep) ==> rep.wf() && rep.text() == exhaustion_text(
            want,
            in_use,
            peak,
            failures,
        ),
{
    if failures > 3 {
        return None;
    }
    proof {
        reveal_strlit("heap: allocation of ");
        reveal_strlit(" bytes failed (");
        reveal_strlit(" B in use, peak ");
        reveal_strlit(" B, failures ");
        reveal_strlit(")\n");
        broadcast use vstd::string::group_string_axioms;
        assert("heap: allocation of ".is_ascii());
        assert(" bytes failed (".is_ascii());
        assert(" B in use, peak ".is_ascii());
        assert(" B, failures ".is_ascii());
        assert(")\n".is_ascii());
        decimal::lemma_decimal_u64(want);
        decimal::lemma_decimal_u64(in_use);
        decimal::lemma_decimal_u64(peak);
        decimal::lemma_decimal_u64(failures);
    }
    let mut rep = Report { buf: [0u8; 160], len: 0 };
    assert(rep.text() =~= Seq::<u8>::empty());
    rep.put("heap: allocation of ".as_bytes());
    rep.put_num(want);
    rep.put(" bytes failed (".as_bytes());
    rep.put_num(in_use);
    rep.put(" B in use, peak ".as_bytes());
    rep.put_num(peak);
    rep.put(" B, failures ".as_bytes());
    rep.put_num(failures);
    rep.put(")\n".as_bytes());
    assert(rep.text() =~= exhaustion_text(want, in_use, peak, failures));
    Some(rep)
}

} // verus!
