use vstd::prelude::*;
use vstd::string::StrSliceExecFns;
use crate::chars_to_string;

verus! {

/// A feedback-with-carry shift register over single bits.
///
/// `state` holds `length` bits (each stored byte is 0 or 1). Every step sums
/// the carry with the tapped bits, shifts the register left by one, appends
/// the low bit of that sum and keeps its upper part as the new carry.
pub struct Fcsr {
    pub state: Vec<u8>,
    pub taps: Vec<usize>,
    pub carry: u8,
    pub length: usize,
}

/// Ghost image of a register: the same data over mathematical sequences.
pub ghost struct FcsrView {
    pub state: Seq<u8>,
    pub taps: Seq<usize>,
    pub carry: int,
}

impl View for Fcsr {
    type V = FcsrView;

    open spec fn view(&self) -> FcsrView {
        FcsrView { state: self.state@, taps: self.taps@, carry: self.carry as int }
    }
}

/// Sum of the bits of `state` selected by `taps`.
pub open spec fn tap_sum(state: Seq<u8>, taps: Seq<usize>) -> int
    decreases taps.len(),
{
    if taps.len() == 0 {
        0
    } else {
        tap_sum(state, taps.drop_last()) + state[taps.last() as int]
    }
}

/// The bit a well-formed register emits on its next step.
pub open spec fn fcsr_output(v: FcsrView) -> u8 {
    (((v.carry + tap_sum(v.state, v.taps)) % 2) as u8)
}

/// The register after one step.
pub open spec fn fcsr_step(v: FcsrView) -> FcsrView {
    FcsrView {
        state: v.state.subrange(1, v.state.len() as int).push(fcsr_output(v)),
        taps: v.taps,
        carry: (v.carry + tap_sum(v.state, v.taps)) / 2,
    }
}

proof fn lemma_tap_sum_bounds(state: Seq<u8>, taps: Seq<usize>)
    requires
        forall|i: int| 0 <= i < state.len() ==> state[i] <= 1,
        forall|j: int| 0 <= j < taps.len() ==> taps[j] < state.len(),
    ensures
        0 <= tap_sum(state, taps) <= taps.len(),
    decreases taps.len(),
{
    if taps.len() > 0 {
        lemma_tap_sum_bounds(state, taps.drop_last());
    }
}

/// `tap_sum` grows one tap at a time: used to run it as a loop.
proof fn lemma_tap_sum_take_step(state: Seq<u8>, taps: Seq<usize>, j: int)
    requires
        0 <= j < taps.len(),
    ensures
        tap_sum(state, taps.take(j + 1)) == tap_sum(state, taps.take(j)) + state[taps[j] as int],
{
    assert(taps.take(j + 1).drop_last() =~= taps.take(j));
    assert(taps.take(j + 1).last() == taps[j]);
}

impl Fcsr {
    /// All the facts every operation preserves: the bit vector has the stated
    /// length, holds only bits, every tap lies inside it, and the carry never
    /// exceeds the number of taps (there are few enough taps for the feedback
    /// sum to fit in a byte).
    pub open spec fn well_formed(self) -> bool {
        &&& self.length == self.state@.len()
        &&& self.length >= 1
        &&& (forall|i: int| 0 <= i < self.state@.len() ==> self.state@[i] <= 1)
        &&& (forall|j: int| 0 <= j < self.taps@.len() ==> self.taps@[j] < self.length)
        &&& self.taps@.len() <= 100
        &&& self.carry <= self.taps@.len()
    }

    pub fn new(initial_state: Vec<u8>, taps: Vec<usize>, length: usize) -> (r: Fcsr)
        requires
            initial_state@.len() == length,
            length >= 1,
            forall|i: int| 0 <= i < initial_state@.len() ==> initial_state@[i] <= 1,
            forall|j: int| 0 <= j < taps@.len() ==> taps@[j] < length,
            taps@.len() <= 100,
        ensures
            r.well_formed(),
            r@ == (FcsrView { state: initial_state@, taps: taps@, carry: 0 }),
            r.length == length,
    {
        Fcsr { state: initial_state, taps, carry: 0, length }
    }

    /// One step of the register: returns the freshly produced bit.
    pub fn next_bit(&mut self) -> (bit: u8)
        requires
            old(self).well_formed(),
        ensures
            final(self).well_formed(),
            final(self)@ == fcsr_step(old(self)@),
            final(self).length == old(self).length,
            bit == fcsr_output(old(self)@),
            bit <= 1,
    {
        let ghost pre = self@;
        let mut feedback: u8 = self.carry;
        let mut j: usize = 0;
        proof {
            assert(pre.taps.take(0) =~= Seq::<usize>::empty());
        }
        while j < self.taps.len()
            invariant
                self.well_formed(),
                self@ == pre,
                j <= self.taps@.len(),
                feedback as int == pre.carry + tap_sum(pre.state, pre.taps.take(j as int)),
                feedback as int <= pre.carry + j,
            decreases self.taps@.len() - j,
        {
            proof {
                lemma_tap_sum_take_step(pre.state, pre.taps, j as int);
            }
            let tap = self.taps[j];
            feedback = feedback + self.state[tap];
            j = j + 1;
        }
        proof {
            assert(pre.taps.take(pre.taps.len() as int) =~= pre.taps);
            lemma_tap_sum_bounds(pre.state, pre.taps);
        }
        let new_bit = feedback % 2;
        self.carry = feedback / 2;
        self.state.remove(0);
        self.state.push(new_bit);
        proof {
            assert(self@.state =~= fcsr_step(pre).state);
        }
        new_bit
    }
}

/// A stream cipher built from three of these registers: every character is
/// masked with the exclusive or of their next bits.
pub struct Cipher {
    pub fcsr1: Fcsr,
    pub fcsr2: Fcsr,
    pub fcsr3: Fcsr,
}

/// Ghost image of the whole cipher.
pub ghost struct CipherView {
    pub f1: FcsrView,
    pub f2: FcsrView,
    pub f3: FcsrView,
}

impl View for Cipher {
    type V = CipherView;

    open spec fn view(&self) -> CipherView {
        CipherView { f1: self.fcsr1@, f2: self.fcsr2@, f3: self.fcsr3@ }
    }
}

/// The keystream bit the cipher emits next.
pub open spec fn cipher_gamma(v: CipherView) -> u8 {
    fcsr_output(v.f1) ^ fcsr_output(v.f2) ^ fcsr_output(v.f3)
}

/// The cipher after emitting one keystream bit.
pub open spec fn cipher_step(v: CipherView) -> CipherView {
    CipherView { f1: fcsr_step(v.f1), f2: fcsr_step(v.f2), f3: fcsr_step(v.f3) }
}

/// How one character is masked by the cipher in state `v`.
pub open spec fn masked_char(v: CipherView, ch: char) -> char {
    (((ch as u32) ^ (cipher_gamma(v) as u32)) as char)
}

/// The cipher after processing a whole sequence of characters.
pub open spec fn cipher_after(v: CipherView, text: Seq<char>) -> CipherView
    decreases text.len(),
{
    if text.len() == 0 {
        v
    } else {
        cipher_step(cipher_after(v, text.drop_last()))
    }
}

/// The characters the cipher emits while processing `text` from state `v`.
pub open spec fn cipher_output(v: CipherView, text: Seq<char>) -> Seq<char>
    decreases text.len(),
{
    if text.len() == 0 {
        Seq::empty()
    } else {
        cipher_output(v, text.drop_last()).push(
            masked_char(cipher_after(v, text.drop_last()), text.last()),
        )
    }
}

/// Any code point the cipher can produce: flipping the lowest bit of a
/// Unicode scalar value never leaves the scalar range.
pub open spec fn valid_scalar(x: u32) -> bool {
    x < 0xD800 || (0xE000 <= x && x <= 0x10FFFF)
}

/// Relies on char::from_u32: `Some` exactly for Unicode scalar values, which
/// are then returned unchanged.
#[verifier::external_body]
fn char_from_u32(x: u32) -> (r: Option<char>)
    ensures
        r is Some <==> valid_scalar(x),
        r matches Some(c) ==> c as int == x as int,
{
    char::from_u32(x)
}

proof fn lemma_masked_char_valid(g: u8, ch: char)
    requires
        g <= 1,
    ensures
        valid_scalar((ch as u32) ^ (g as u32)),
        ((ch as u32) ^ (g as u32)) ^ (g as u32) == ch as u32,
{
    let x = ch as u32;
    let gg = g as u32;
    assert(x < 0xD800 || (0xE000 <= x && x <= 0x10FFFF));
    assert(gg <= 1 ==> ((x ^ gg) >> 1 == x >> 1 && (x ^ gg) ^ gg == x)) by (bit_vector);
    assert(forall|y: u32| #![auto] y >> 1 == y / 2) by (bit_vector);
    assert((x ^ gg) / 2 == x / 2);
    assert((x ^ gg) >= 2 * ((x ^ gg) / 2));
    assert((x ^ gg) < 2 * ((x ^ gg) / 2) + 2);
}

impl Cipher {
    pub open spec fn well_formed(self) -> bool {
        &&& self.fcsr1.well_formed()
        &&& self.fcsr2.well_formed()
        &&& self.fcsr3.well_formed()
    }

    /// The fixed starting state: three 96-bit registers filled with ones,
    /// with taps 96/95/45/2, 96/88/79/2 and 96/69/17/2 (one-based from the
    /// register's end, as is usual for feedback polynomials).
    pub fn new() -> (r: Cipher)
        ensures
            r.well_formed(),
            r@.f1 == (FcsrView { state: Seq::new(96, |i: int| 1u8), taps: seq![95usize, 94usize, 44usize, 1usize], carry: 0 }),
            r@.f2 == (FcsrView { state: Seq::new(96, |i: int| 1u8), taps: seq![95usize, 87usize, 78usize, 1usize], carry: 0 }),
            r@.f3 == (FcsrView { state: Seq::new(96, |i: int| 1u8), taps: seq![95usize, 68usize, 16usize, 1usize], carry: 0 }),
    {
        let fcsr1 = Fcsr::new(ones(96), taps4(96 - 1, 95 - 1, 45 - 1, 2 - 1), 96);
        let fcsr2 = Fcsr::new(ones(96), taps4(96 - 1, 88 - 1, 79 - 1, 2 - 1), 96);
        let fcsr3 = Fcsr::new(ones(96), taps4(96 - 1, 69 - 1, 17 - 1, 2 - 1), 96);
        Cipher { fcsr1, fcsr2, fcsr3 }
    }

    /// The next keystream bit.
    pub fn generate_gamma(&mut self) -> (gamma: u32)
        requires
            old(self).well_formed(),
        ensures
            final(self).well_formed(),
            final(self)@ == cipher_step(old(self)@),
            gamma == cipher_gamma(old(self)@) as u32,
            gamma <= 1,
    {
        let b1 = self.fcsr1.next_bit();
        let b2 = self.fcsr2.next_bit();
        let b3 = self.fcsr3.next_bit();
        let g: u8 = b1 ^ b2 ^ b3;
        assert(b1 <= 1 && b2 <= 1 && b3 <= 1 ==> (b1 ^ b2 ^ b3) <= 1) by (bit_vector);
        g as u32
    }

    /// Mask one character with the next keystream bit. Applying the cipher
    /// twice from the same starting state restores the character, since the
    /// mask is an exclusive or.
    pub fn process_char(&mut self, ch: char) -> (r: char)
        requires
            old(self).well_formed(),
        ensures
            final(self).well_formed(),
            final(self)@ == cipher_step(old(self)@),
            r == masked_char(old(self)@, ch),
    {
        let ghost pre = self@;
        let gamma = self.generate_gamma();
        let x = (ch as u32) ^ gamma;
        proof {
            lemma_masked_char_valid(cipher_gamma(pre), ch);
        }
        let c = char_from_u32(x);
        let r = c.unwrap();
        proof {
            let x2 = (ch as u32) ^ (cipher_gamma(pre) as u32);
            assert(valid_scalar(x2));
            assert(r as int == x2 as int);
            assert((x2 as char) as int == x2 as int);
            assert(r == masked_char(pre, ch));
        }
        r
    }

    /// Mask a whole string, character by character.
    pub fn process_str(&mut self, text: &str) -> (r: String)
        requires
            old(self).well_formed(),
        ensures
            final(self).well_formed(),
            final(self)@ == cipher_after(old(self)@, text@),
            r@ == cipher_output(old(self)@, text@),
    {
        let ghost pre = self@;
        let n = text.unicode_len();
        let mut result: Vec<char> = Vec::new();
        let mut i: usize = 0;
        proof {
            assert(text@.take(0) =~= Seq::<char>::empty());
        }
        while i < n
            invariant
                self.well_formed(),
                n == text@.len(),
                i <= n,
                self@ == cipher_after(pre, text@.take(i as int)),
                result@ == cipher_output(pre, text@.take(i as int)),
            decreases n - i,
        {
            let ch = text.get_char(i);
            let enc = self.process_char(ch);
            result.push(enc);
            proof {
                assert(text@.take(i + 1).drop_last() =~= text@.take(i as int));
                assert(text@.take(i + 1).last() == text@[i as int]);
            }
            i = i + 1;
        }
        proof {
            assert(text@.take(n as int) =~= text@);
        }
        chars_to_string(result)
    }
}

/// A vector of `n` one bits.
fn ones(n: usize) -> (r: Vec<u8>)
    ensures
        r@ == Seq::new(n as nat, |i: int| 1u8),
{
    let r = vec![1u8; n];
    proof {
        assert(r@ =~= Seq::new(n as nat, |i: int| 1u8));
    }
    r
}

/// A vector of four tap positions.
fn taps4(a: usize, b: usize, c: usize, d: usize) -> (r: Vec<usize>)
    ensures
        r@ == seq![a, b, c, d],
{
    let r = vec![a, b, c, d];
    proof {
        assert(r@ =~= seq![a, b, c, d]);
    }
    r
}

} // verus!
