use vstd::prelude::*;
use vstd::wrapping::u32_specs;

verus! {

/// Round constant derived from the golden ratio.
pub const DELTA: u32 = 0x9e3779b9;

/// Split a 128-bit key into four big-endian 32-bit words.
pub fn u128_to_u32_be(key: u128) -> (r: [u32; 4])
    ensures
        r@ == seq![(key >> 96) as u32, (key >> 64) as u32, (key >> 32) as u32, key as u32],
{
    let r = [(key >> 96) as u32, (key >> 64) as u32, (key >> 32) as u32, key as u32];
    proof {
        assert(r@ =~= seq![(key >> 96) as u32, (key >> 64) as u32, (key >> 32) as u32, key as u32]);
    }
    r
}

/// The mixing term both halves feed each other: shifted copies of `v` are
/// keyed and folded with the running sum, all mod 2^32.
pub open spec fn tea_mix(v: u32, k0: u32, k1: u32, sum: u32) -> u32 {
    u32_specs::wrapping_add(v << 4, k0) ^ u32_specs::wrapping_add(v, sum)
        ^ u32_specs::wrapping_add(v >> 5, k1)
}

/// One double round of encryption: bump the sum, then update each half.
pub open spec fn tea_enc_round(s: (u32, u32, u32), key: Seq<u32>) -> (u32, u32, u32) {
    let sum = u32_specs::wrapping_add(s.2, DELTA);
    let v0 = u32_specs::wrapping_add(s.0, tea_mix(s.1, key[0], key[1], sum));
    let v1 = u32_specs::wrapping_add(s.1, tea_mix(v0, key[2], key[3], sum));
    (v0, v1, sum)
}

/// One double round of decryption, undoing `tea_enc_round`.
pub open spec fn tea_dec_round(s: (u32, u32, u32), key: Seq<u32>) -> (u32, u32, u32) {
    let v1 = u32_specs::wrapping_sub(s.1, tea_mix(s.0, key[2], key[3], s.2));
    let v0 = u32_specs::wrapping_sub(s.0, tea_mix(v1, key[0], key[1], s.2));
    (v0, v1, u32_specs::wrapping_sub(s.2, DELTA))
}

/// `n` encryption rounds applied to `s`.
pub open spec fn tea_enc_iter(s: (u32, u32, u32), key: Seq<u32>, n: nat) -> (u32, u32, u32)
    decreases n,
{
    if n == 0 {
        s
    } else {
        tea_enc_round(tea_enc_iter(s, key, (n - 1) as nat), key)
    }
}

/// `n` decryption rounds applied to `s`.
pub open spec fn tea_dec_iter(s: (u32, u32, u32), key: Seq<u32>, n: nat) -> (u32, u32, u32)
    decreases n,
{
    if n == 0 {
        s
    } else {
        tea_dec_round(tea_dec_iter(s, key, (n - 1) as nat), key)
    }
}

/// The whole 64-round encryption of one 64-bit block.
pub open spec fn spec_encrypt_block(key: Seq<u32>, block: u64) -> u64 {
    let s = tea_enc_iter(((block >> 32) as u32, block as u32, 0u32), key, 32);
    ((s.0 as u64) << 32) | (s.1 as u64)
}

/// The whole 64-round decryption of one 64-bit block.
pub open spec fn spec_decrypt_block(key: Seq<u32>, block: u64) -> u64 {
    let s = tea_dec_iter(
        ((block >> 32) as u32, block as u32, u32_specs::wrapping_mul(DELTA, 32)),
        key,
        32,
    );
    ((s.0 as u64) << 32) | (s.1 as u64)
}

/// Tiny Encryption Algorithm over 64-bit blocks with a 128-bit key.
pub struct Tea {
    pub key: [u32; 4],
}

impl Tea {
    pub fn new(key: u128) -> (r: Tea)
        ensures
            r.key@ == seq![(key >> 96) as u32, (key >> 64) as u32, (key >> 32) as u32, key as u32],
    {
        Tea { key: u128_to_u32_be(key) }
    }

    pub fn encrypt_block(&self, block: u64) -> (r: u64)
        ensures
            r == spec_encrypt_block(self.key@, block),
    {
        let mut v0: u32 = (block >> 32) as u32;
        let mut v1: u32 = block as u32;
        let mut sum: u32 = 0;
        let ghost init = (v0, v1, sum);

        let mut i: usize = 0;
        // Each pass makes the odd and the even round at once, so 32 passes
        // give the 64 rounds.
        while i < 32
            invariant
                i <= 32,
                (v0, v1, sum) == tea_enc_iter(init, self.key@, i as nat),
            decreases 32 - i,
        {
            sum = sum.wrapping_add(DELTA);
            v0 = v0.wrapping_add(
                ((v1 << 4u32).wrapping_add(self.key[0])) ^ (v1.wrapping_add(sum))
                    ^ ((v1 >> 5u32).wrapping_add(self.key[1])),
            );
            v1 = v1.wrapping_add(
                ((v0 << 4u32).wrapping_add(self.key[2])) ^ (v0.wrapping_add(sum))
                    ^ ((v0 >> 5u32).wrapping_add(self.key[3])),
            );
            i = i + 1;
        }

        ((v0 as u64) << 32u64) | (v1 as u64)
    }

    pub fn decrypt_block(&self, block: u64) -> (r: u64)
        ensures
            r == spec_decrypt_block(self.key@, block),
    {
        let mut v0: u32 = (block >> 32) as u32;
        let mut v1: u32 = block as u32;
        let mut sum: u32 = DELTA.wrapping_mul(32);
        let ghost init = (v0, v1, sum);

        let mut i: usize = 0;
        while i < 32
            invariant
                i <= 32,
                (v0, v1, sum) == tea_dec_iter(init, self.key@, i as nat),
            decreases 32 - i,
        {
            v1 = v1.wrapping_sub(
                ((v0 << 4u32).wrapping_add(self.key[2])) ^ (v0.wrapping_add(sum))
                    ^ ((v0 >> 5u32).wrapping_add(self.key[3])),
            );
            v0 = v0.wrapping_sub(
                ((v1 << 4u32).wrapping_add(self.key[0])) ^ (v1.wrapping_add(sum))
                    ^ ((v1 >> 5u32).wrapping_add(self.key[1])),
            );
            sum = sum.wrapping_sub(DELTA);
            i = i + 1;
        }

        ((v0 as u64) << 32u64) | (v1 as u64)
    }
}

/// Which way a CBC pass runs.
pub enum Mode {
    Encrypt,
    Decrypt,
}

/// A little-endian 64-bit reading of a byte sequence of length at most 8;
/// missing high bytes count as zero.
pub open spec fn le_to_u64(s: Seq<u8>) -> u64
    decreases s.len(),
{
    if s.len() == 0 {
        0
    } else {
        le_to_u64(s.drop_last()) | ((s.last() as u64) << (8 * (s.len() - 1)))
    }
}

/// The eight little-endian bytes of a 64-bit value.
pub open spec fn u64_to_le(x: u64) -> Seq<u8> {
    Seq::new(8, |j: int| (x >> (8 * j)) as u8)
}

/// One CBC step on an already-read block: the output block and the chaining
/// value for the next step.
pub open spec fn cbc_block(mode: Mode, key: Seq<u32>, iv: u64, block: u64) -> (u64, u64) {
    match mode {
        Mode::Encrypt => {
            let out = spec_encrypt_block(key, block ^ iv);
            (out, out)
        },
        Mode::Decrypt => (spec_decrypt_block(key, block) ^ iv, block),
    }
}

/// A whole CBC pass over `data`, eight bytes at a time, the last chunk
/// zero-padded: the produced bytes and the final chaining value.
pub open spec fn cbc_run(mode: Mode, key: Seq<u32>, iv: u64, data: Seq<u8>) -> (Seq<u8>, u64)
    decreases data.len(),
{
    if data.len() == 0 {
        (Seq::empty(), iv)
    } else {
        let k = if data.len() < 8 {
            data.len() as int
        } else {
            8
        };
        let block = le_to_u64(data.take(k));
        let step = cbc_block(mode, key, iv, block);
        let rest = cbc_run(mode, key, step.1, data.skip(k));
        (u64_to_le(step.0) + rest.0, rest.1)
    }
}

/// Cipher block chaining around the block cipher.
pub struct Cbc {
    pub iv: u64,
    pub tea: Tea,
}

impl Cbc {
    pub fn new(iv: u64, tea: Tea) -> (r: Cbc)
        ensures
            r.iv == iv,
            r.tea == tea,
    {
        Cbc { iv, tea }
    }

    pub fn encrypt_block(&mut self, block: u64) -> (r: u64)
        ensures
            r == spec_encrypt_block(old(self).tea.key@, block ^ old(self).iv),
            final(self).iv == r,
            final(self).tea == old(self).tea,
    {
        let processed = block ^ self.iv;
        let processed = self.tea.encrypt_block(processed);
        self.iv = processed;
        processed
    }

    pub fn decrypt_block(&mut self, block: u64) -> (r: u64)
        ensures
            r == spec_decrypt_block(old(self).tea.key@, block) ^ old(self).iv,
            final(self).iv == block,
            final(self).tea == old(self).tea,
    {
        let decrypted = self.tea.decrypt_block(block);
        let processed = decrypted ^ self.iv;
        self.iv = block;
        processed
    }

    /// Run the whole input through the chaining mode. The result holds one
    /// output block for every started chunk of eight input bytes.
    pub fn process_slice(&mut self, mode: &Mode, data: &[u8]) -> (r: Vec<u8>)
        ensures
            final(self).tea == old(self).tea,
            (r@, final(self).iv) == cbc_run(*mode, old(self).tea.key@, old(self).iv, data@),
    {
        let ghost tea0 = self.tea;
        let ghost key = self.tea.key@;
        let ghost iv0 = self.iv;
        let mut res: Vec<u8> = Vec::new();
        let n = data.len();
        let mut i: usize = 0;
        proof {
            assert(data@.skip(0) =~= data@);
        }
        while i < n
            invariant
                i <= n,
                n == data@.len(),
                self.tea == tea0,
                self.tea.key@ == key,
                cbc_run(*mode, key, iv0, data@) == {
                    let rest = cbc_run(*mode, key, self.iv as u64, data@.skip(i as int));
                    (res@ + rest.0, rest.1)
                },
            decreases n - i,
        {
            let k: usize = if n - i < 8 {
                n - i
            } else {
                8
            };
            let ghost remaining = data@.skip(i as int);
            // Read the next chunk as a little-endian number, high bytes zero.
            let mut block: u64 = 0;
            let mut j: usize = 0;
            proof {
                assert(remaining.take(k as int).take(0) =~= Seq::<u8>::empty());
            }
            while j < k
                invariant
                    j <= k,
                    k <= 8,
                    i + k <= n,
                    n == data@.len(),
                    remaining == data@.skip(i as int),
                    block == le_to_u64(remaining.take(k as int).take(j as int)),
                decreases k - j,
            {
                proof {
                    assert(remaining.take(k as int).take(j + 1).drop_last() =~= remaining.take(
                        k as int,
                    ).take(j as int));
                    assert(remaining.take(k as int).take(j + 1).last() == data@[i + j]);
                }
                block = block | ((data[i + j] as u64) << (8 * (j as u64)));
                proof {
                    let s = remaining.take(k as int).take(j + 1);
                    assert(le_to_u64(s) == le_to_u64(s.drop_last()) | ((s.last() as u64) << (8 * (
                    s.len() - 1))));
                }
                j = j + 1;
            }
            proof {
                assert(remaining.take(k as int).take(k as int) =~= remaining.take(k as int));
            }
            let block_value = match mode {
                Mode::Encrypt => self.encrypt_block(block),
                Mode::Decrypt => self.decrypt_block(block),
            };
            // Write the output block back as its eight little-endian bytes.
            let mut j2: usize = 0;
            let ghost res_before = res@;
            while j2 < 8
                invariant
                    j2 <= 8,
                    res@ == res_before + u64_to_le(block_value).take(j2 as int),
                decreases 8 - j2,
            {
                res.push(#[verifier::truncate] ((block_value >> (8 * (j2 as u64))) as u8));
                proof {
                    assert(u64_to_le(block_value).take(j2 + 1).drop_last() =~= u64_to_le(
                        block_value,
                    ).take(j2 as int));
                }
                j2 = j2 + 1;
            }
            proof {
                assert(u64_to_le(block_value).take(8) =~= u64_to_le(block_value));
                assert(remaining.skip(k as int) =~= data@.skip(i + k));
            }
            i = i + k;
        }
        proof {
            assert(data@.skip(n as int) =~= Seq::<u8>::empty());
            assert(res@ + Seq::<u8>::empty() =~= res@);
        }
        res
    }
}

} // verus!
