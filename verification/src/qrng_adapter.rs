//! Where random keys come from.
use crate::codec::{base64_bytes, base64_encode, base64_text};
use crate::crypto::primitives::random_bytes;
use vstd::prelude::*;
use vstd::string::*;

verus! {

pub enum Mode {
    /// The operating system.
    Os,
    /// A quantum generator at this address.
    Quditto(String),
}

pub struct QrngAdapter {
    pub mode: Mode,
}

/// Bytes that hold so many bits.
pub open spec fn bytes_of_bits(bits: nat) -> nat {
    (bits + 7) / 8
}

impl QrngAdapter {
    /// A generator that has an address is used, else the operating system.
    pub fn from_config(qrng_url: Option<&str>) -> (r: Self)
        ensures
            match r.mode {
                Mode::Quditto(u) => qrng_url matches Some(url) && url@.len() > 0 && u@ == url@,
                Mode::Os => qrng_url matches Some(url) ==> url@.len() == 0,
            },
    {
        match qrng_url {
            Some(url) => {
                if crate::text::chars_of(url).len() > 0 {
                    QrngAdapter { mode: Mode::Quditto(url.to_owned()) }
                } else {
                    QrngAdapter { mode: Mode::Os }
                }
            },
            None => QrngAdapter { mode: Mode::Os },
        }
    }

    /// Random keys of so many bits, in base64: `count` of them from the operating
    /// system. No keys are read from a quantum generator yet.
    pub fn read_keys_b64(&self, count: u32, size_bits: u32) -> (r: Vec<String>)
        ensures
            r@.len() == (match self.mode {
                Mode::Os => count as nat,
                Mode::Quditto(_) => 0,
            }),
            forall|i: int|
                0 <= i < r@.len() ==> {
                    let text = (#[trigger] r@[i])@;
                    &&& base64_bytes(text) is Ok
                    &&& base64_bytes(text)->Ok_0.len() == bytes_of_bits(size_bits as nat)
                    &&& text == base64_text(base64_bytes(text)->Ok_0)
                },
    {
        let mut out: Vec<String> = Vec::new();
        match &self.mode {
            Mode::Os => {
                let part: u32 = if size_bits % 8 == 0 {
                    0
                } else {
                    1
                };
                let bytes_per_key: usize = (size_bits / 8 + part) as usize;
                let mut i: u32 = 0;
                while i < count
                    invariant
                        bytes_per_key == bytes_of_bits(size_bits as nat),
                        bytes_per_key <= 0x2000_0000,
                        i <= count,
                        out@.len() == i,
                        forall|j: int|
                            0 <= j < i ==> {
                                let text = (#[trigger] out@[j])@;
                                &&& base64_bytes(text) is Ok
                                &&& base64_bytes(text)->Ok_0.len() == bytes_per_key
                                &&& text == base64_text(base64_bytes(text)->Ok_0)
                            },
                    decreases count - i,
                {
                    let key = random_bytes(bytes_per_key);
                    out.push(base64_encode(key.as_slice()));
                    i = i + 1;
                }
            },
            Mode::Quditto(_) => {},
        }
        out
    }
}

/// So many bytes hold so many bits, and no byte is wasted.
pub proof fn bytes_just_hold_the_bits(bits: nat)
    ensures
        bits <= bytes_of_bits(bits) * 8 < bits + 8,
{
}

} // verus!
