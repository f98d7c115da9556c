use vstd::prelude::*;
use vstd::string::StringExecFns;
use crate::text::push_char;

verus! {

/// A growable output sink that text is appended to.
pub trait ByteBuffer {
    /// The text written so far.
    spec fn text(&self) -> Seq<char>;

    /// Appends one ASCII character, given as its byte.
    fn push(&mut self, byte: u8)
        requires
            byte < 128,
        ensures
            final(self).text() == old(self).text().push(byte as char),
    ;

    /// Appends `s`.
    fn push_str(&mut self, s: &str)
        ensures
            final(self).text() == old(self).text() + s@,
    ;
}

impl ByteBuffer for String {
    open spec fn text(&self) -> Seq<char> {
        self@
    }

    fn push(&mut self, byte: u8) {
        push_char(self, byte as char);
    }

    fn push_str(&mut self, s: &str) {
        self.append(s);
    }
}

/// The capacity a byte array grows to, by doubling from `c`, until it holds
/// `needed` bytes.
pub open spec fn doubled_until(c: nat, needed: nat) -> nat
    decreases (if c < needed { needed - c } else { 0 }) when c > 0
{
    if c >= needed {
        c
    } else {
        doubled_until(2 * c, needed)
    }
}

/// The capacity needed to hold `needed` bytes: `capacity` where it is enough,
/// else the larger of `capacity` and 8, doubled until it is enough.
pub open spec fn grown_capacity_spec(capacity: nat, needed: nat) -> nat {
    if needed <= capacity {
        capacity
    } else {
        doubled_until(if capacity < 8 { 8 } else { capacity }, needed)
    }
}

proof fn lemma_doubled_until(c: nat, needed: nat)
    requires
        c > 0,
    ensures
        doubled_until(c, needed) >= c,
        doubled_until(c, needed) >= needed,
        c < needed ==> doubled_until(c, needed) >= 2 * c,
    decreases (if c < needed { needed - c } else { 0 }),
{
    if c < needed {
        lemma_doubled_until(2 * c, needed);
    }
}

/// The capacity that a byte array of `capacity` bytes grows to so that it
/// holds `needed` bytes, or `None` where that is more than `u32::MAX`.
pub fn grown_capacity(capacity: u32, needed: u32) -> (r: Option<u32>)
    ensures
        grown_capacity_spec(capacity as nat, needed as nat) <= u32::MAX ==> r == Some(
            grown_capacity_spec(capacity as nat, needed as nat) as u32,
        ),
        grown_capacity_spec(capacity as nat, needed as nat) > u32::MAX ==> r is None,
{
    if needed <= capacity {
        return Some(capacity);
    }
    let mut c: u32 = if capacity < 8 {
        8
    } else {
        capacity
    };
    let ghost start = c as nat;
    while c < needed
        invariant
            c > 0,
            doubled_until(c as nat, needed as nat) == doubled_until(start, needed as nat),
            start == (if capacity < 8 { 8 } else { capacity }) as nat,
            needed > capacity,
        decreases (if c < needed { needed - c } else { 0 }),
    {
        if c > u32::MAX / 2 {
            proof {
                lemma_doubled_until(c as nat, needed as nat);
            }
            return None;
        }
        c = c * 2;
    }
    Some(c)
}

} // verus!
