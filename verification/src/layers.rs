//! A 64-channel membership mask used for visibility and selection filtering
//! of scene objects.

use vstd::prelude::*;

verus! {

/// A set of enabled channels, one bit per channel: bit `i` of the mask is set
/// exactly when channel `i` is enabled.  A fresh `Layers` has only channel 0
/// enabled.  Two objects interact (for visibility tests and the like) when
/// their masks share at least one enabled channel.
pub struct Layers {
    mask: u64,
}

impl View for Layers {
    type V = u64;

    closed spec fn view(&self) -> u64 {
        self.mask
    }
}

/// A nonzero 64-bit mask has at least one set bit below position 64.
proof fn lemma_nonzero_has_bit(m: u64)
    requires
        m != 0,
    ensures
        exists|c: u64| c < 64 && m & #[trigger] (1u64 << c) != 0,
    decreases m,
{
    if m & 1 != 0 {
        assert(m & (1u64 << 0u64) != 0) by (bit_vector)
            requires
                m & 1 != 0,
        ;
        assert(0u64 < 64 && m & (1u64 << 0u64) != 0);
    } else {
        assert(m >> 1 != 0 && m >> 1 < m) by (bit_vector)
            requires
                m != 0 && m & 1 == 0,
        ;
        lemma_nonzero_has_bit(m >> 1);
        let c = choose|c: u64| c < 64 && (m >> 1) & #[trigger] (1u64 << c) != 0;
        assert((m >> 1) & (1u64 << 63u64) == 0) by (bit_vector);
        assert(c < 63);
        let d = (c + 1) as u64;
        assert(m & (1u64 << d) != 0) by (bit_vector)
            requires
                d == c + 1 && c < 63 && (m >> 1) & (1u64 << c) != 0,
        ;
        assert(d < 64 && m & (1u64 << d) != 0);
    }
}

impl Layers {
    /// Whether channel `channel` is enabled in this mask.
    pub open spec fn enabled(self, channel: u64) -> bool {
        self@ & (1u64 << channel) != 0
    }

    /// A fresh mask: channel 0 enabled, every other channel disabled.
    pub fn new() -> (r: Layers)
        ensures
            r@ == 1u64,
            r.enabled(0),
            forall|c: u64| 0 < c < 64 ==> !r.enabled(c),
    {
        proof {
            assert(forall|c: u64| 0 < c < 64 ==> 1u64 & #[trigger] (1u64 << c) == 0)
                by (bit_vector);
            assert(1u64 & (1u64 << 0u64) != 0) by (bit_vector);
        }
        Layers { mask: 1u64 }
    }

    /// Replace the mask so that `channel` is the only enabled channel.
    pub fn set(&mut self, channel: u64)
        requires
            channel < 64,
        ensures
            final(self)@ == 1u64 << channel,
            forall|c: u64| c < 64 ==> (final(self).enabled(c) <==> c == channel),
    {
        proof {
            let ch = channel;
            assert(forall|c: u64| c < 64 ==> ((1u64 << ch) & #[trigger] (1u64 << c) != 0 <==> c
                == ch)) by (bit_vector)
                requires
                    ch < 64,
            ;
        }
        self.mask = 1u64 << channel;
    }

    /// Enable `channel`, leaving every other channel as it was.
    pub fn enable(&mut self, channel: u64)
        requires
            channel < 64,
        ensures
            final(self)@ == old(self)@ | (1u64 << channel),
            forall|c: u64| c < 64 ==> (final(self).enabled(c) <==> old(self).enabled(c) || c
                == channel),
    {
        proof {
            let m = self.mask;
            let ch = channel;
            assert(forall|c: u64| c < 64 ==> ((m | (1u64 << ch)) & #[trigger] (1u64 << c) != 0
                <==> (m & (1u64 << c) != 0 || c == ch))) by (bit_vector)
                requires
                    ch < 64,
            ;
        }
        self.mask = self.mask | (1u64 << channel);
    }

    /// Flip `channel`, leaving every other channel as it was.
    pub fn toggle(&mut self, channel: u64)
        requires
            channel < 64,
        ensures
            final(self)@ == old(self)@ ^ (1u64 << channel),
            forall|c: u64| c < 64 ==> (final(self).enabled(c) <==> if c == channel {
                !old(self).enabled(c)
            } else {
                old(self).enabled(c)
            }),
    {
        proof {
            let m = self.mask;
            let ch = channel;
            assert(forall|c: u64| c < 64 ==> ((m ^ (1u64 << ch)) & #[trigger] (1u64 << c) != 0
                <==> if c == ch {
                !(m & (1u64 << c) != 0)
            } else {
                m & (1u64 << c) != 0
            })) by (bit_vector)
                requires
                    ch < 64,
            ;
        }
        self.mask = self.mask ^ (1u64 << channel);
    }

    /// Disable `channel`, leaving every other channel as it was.
    pub fn disable(&mut self, channel: u64)
        requires
            channel < 64,
        ensures
            final(self)@ == old(self)@ & !(1u64 << channel),
            forall|c: u64| c < 64 ==> (final(self).enabled(c) <==> old(self).enabled(c) && c
                != channel),
    {
        proof {
            let m = self.mask;
            let ch = channel;
            assert(forall|c: u64| c < 64 ==> ((m & !(1u64 << ch)) & #[trigger] (1u64 << c) != 0
                <==> (m & (1u64 << c) != 0 && c != ch))) by (bit_vector)
                requires
                    ch < 64,
            ;
        }
        self.mask = self.mask & !(1u64 << channel);
    }

    /// Whether this mask and `layers` share at least one enabled channel
    /// (bitwise intersection test).
    pub fn test(&self, layers: &Layers) -> (r: bool)
        ensures
            r == (self@ & layers@ != 0),
            r <==> exists|c: u64| c < 64 && self.enabled(c) && layers.enabled(c),
    {
        proof {
            let a = self.mask;
            let b = layers.mask;
            if a & b != 0 {
                lemma_nonzero_has_bit(a & b);
                let c = choose|c: u64| c < 64 && (a & b) & #[trigger] (1u64 << c) != 0;
                assert(a & (1u64 << c) != 0 && b & (1u64 << c) != 0) by (bit_vector)
                    requires
                        (a & b) & (1u64 << c) != 0,
                ;
                assert(c < 64 && self.enabled(c) && layers.enabled(c));
            }
            if exists|c: u64| c < 64 && self.enabled(c) && layers.enabled(c) {
                let c = choose|c: u64| c < 64 && self.enabled(c) && layers.enabled(c);
                assert(a & b != 0) by (bit_vector)
                    requires
                        a & (1u64 << c) != 0 && b & (1u64 << c) != 0,
                ;
            }
        }
        (self.mask & layers.mask) != 0
    }
}

} // verus!
