//! Peer and room identifiers.
//!
//! A peer id is a 128-bit lexicographically sortable value (a ULID), generated
//! fresh for each connection. A room id is a client-supplied topic name, kept
//! as the UTF-8 bytes of the name; rooms are discoverable named topics.

use vstd::prelude::*;

verus! {

/// A 128-bit peer identifier. The canonical wire form is the 26-character
/// lowercase Crockford base-32 rendering of the value.
#[derive(Clone, Copy, PartialEq, Eq, Structural, Debug)]
pub struct PeerId {
    pub value: u128,
}

impl View for PeerId {
    type V = u128;

    open spec fn view(&self) -> u128 {
        self.value
    }
}

/// Relies on ulid::Ulid::new: draws a fresh identifier from the system clock
/// and a random source. The value depends on the environment, so nothing is
/// promised of it.
#[verifier::external_body]
pub(crate) fn fresh_peer_value() -> u128 {
    ulid::Ulid::new().0
}

impl PeerId {
    /// Generates a fresh identifier. Freshness is probabilistic (clock and
    /// randomness), so callers that need uniqueness must check for themselves.
    pub(crate) fn generate() -> PeerId {
        PeerId { value: fresh_peer_value() }
    }
}

/// The lowercase Crockford base-32 digit for a value below 32: the digits
/// `0`-`9` followed by the letters `a`-`z` without `i`, `l`, `o` and `u`.
pub open spec fn base32_digit(d: u8) -> u8 {
    if d < 10 {
        (48 + d) as u8
    } else if d < 18 {
        (87 + d) as u8
    } else if d < 20 {
        (88 + d) as u8
    } else if d < 22 {
        (89 + d) as u8
    } else if d < 27 {
        (90 + d) as u8
    } else {
        (91 + d) as u8
    }
}

/// The least significant `count` base-32 digits of `v`, least significant
/// digit first.
pub open spec fn base32_digits_rev(v: nat, count: nat) -> Seq<u8>
    decreases count,
{
    if count == 0 {
        Seq::empty()
    } else {
        seq![base32_digit((v % 32) as u8)] + base32_digits_rev(v / 32, (count - 1) as nat)
    }
}

/// The canonical string form of a peer id: its 26 base-32 digits, most
/// significant first, as lowercase ASCII bytes.
pub open spec fn canonical_form(v: u128) -> Seq<u8> {
    base32_digits_rev(v as nat, 26).reverse()
}

impl PeerId {
    /// Renders the identifier in its canonical lowercase base-32 form.
    pub fn canonical_bytes(&self) -> (r: Vec<u8>)
        ensures
            r@ == canonical_form(self@),
            r@.len() == 26,
    {
        let mut v: u128 = self.value;
        let mut rev: Vec<u8> = Vec::new();
        let ghost whole: nat = self.value as nat;
        let mut i: usize = 0;
        while i < 26
            invariant
                0 <= i <= 26,
                rev@.len() == i,
                base32_digits_rev(whole, 26) == rev@ + base32_digits_rev(
                    v as nat,
                    (26 - i) as nat,
                ),
            decreases 26 - i,
        {
            let d: u8 = (v % 32) as u8;
            let b: u8 = if d < 10 {
                48 + d
            } else if d < 18 {
                87 + d
            } else if d < 20 {
                88 + d
            } else if d < 22 {
                89 + d
            } else if d < 27 {
                90 + d
            } else {
                91 + d
            };
            assert(b == base32_digit((v as nat % 32) as u8));
            rev.push(b);
            proof {
                assert(rev@ + base32_digits_rev(v as nat / 32, (26 - i - 1) as nat)
                    =~= rev@.drop_last() + base32_digits_rev(v as nat, (26 - i) as nat));
            }
            v = v / 32;
            i = i + 1;
        }
        proof {
            assert(base32_digits_rev(whole, 26) =~= rev@);
        }
        let mut out: Vec<u8> = Vec::new();
        let ghost digits: Seq<u8> = rev@;
        let mut j: usize = 26;
        while j > 0
            invariant
                0 <= j <= 26,
                rev@ == digits.take(j as int),
                out@ == digits.skip(j as int).reverse(),
                digits.len() == 26,
            decreases j,
        {
            let b = match rev.pop() {
                Some(b) => b,
                None => {
                    proof {
                        assert(false);
                    }
                    0
                },
            };
            out.push(b);
            proof {
                assert(rev@ =~= digits.take(j - 1));
                assert(out@ =~= digits.skip(j - 1).reverse());
            }
            j = j - 1;
        }
        proof {
            assert(digits.skip(0) =~= digits);
            assert(out@ == canonical_form(self@));
        }
        out
    }
}

/// A room identifier: the topic name a client supplied, as UTF-8 bytes.
#[derive(Debug, PartialEq, Eq)]
pub struct RoomId {
    pub name: Vec<u8>,
}

impl View for RoomId {
    type V = Seq<u8>;

    open spec fn view(&self) -> Seq<u8> {
        self.name@
    }
}

impl RoomId {
    /// Wraps a topic name.
    pub fn new(name: Vec<u8>) -> (r: RoomId)
        ensures
            r@ == name@,
    {
        RoomId { name }
    }

    /// Value equality of two room ids.
    pub fn matches(&self, other: &RoomId) -> (b: bool)
        ensures
            b == (self@ == other@),
    {
        if self.name.len() != other.name.len() {
            proof {
                assert(self@ != other@);
            }
            return false;
        }
        let mut i: usize = 0;
        while i < self.name.len()
            invariant
                0 <= i <= self.name@.len(),
                self.name@.len() == other.name@.len(),
                forall|k: int| 0 <= k < i ==> self.name@[k] == other.name@[k],
            decreases self.name@.len() - i,
        {
            if self.name[i] != other.name[i] {
                return false;
            }
            i = i + 1;
        }
        proof {
            assert(self@ =~= other@);
        }
        true
    }

    /// A copy of this id with the same name.
    pub fn duplicate(&self) -> (r: RoomId)
        ensures
            r@ == self@,
    {
        RoomId { name: clone_bytes(&self.name) }
    }
}

/// A copy of a byte vector with the same contents.
pub fn clone_bytes(v: &Vec<u8>) -> (r: Vec<u8>)
    ensures
        r@ == v@,
{
    let mut out: Vec<u8> = Vec::new();
    let mut i: usize = 0;
    while i < v.len()
        invariant
            0 <= i <= v@.len(),
            out@ == v@.take(i as int),
        decreases v@.len() - i,
    {
        out.push(v[i]);
        proof {
            assert(out@ =~= v@.take(i + 1));
        }
        i = i + 1;
    }
    proof {
        assert(v@.take(v@.len() as int) =~= v@);
    }
    out
}

} // verus!
