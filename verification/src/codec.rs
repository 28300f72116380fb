//! Compression codecs for strip data: no compression, PackBits run-length
//! coding, and the reserved CCITT variant that fails when invoked.

use crate::error::TiffError;
use vstd::prelude::*;

verus! {

/// The compression schemes a file may declare.
#[derive(Clone, Copy, Debug, PartialEq, Eq, Structural)]
pub enum Compression {
    Uncompressed,
    CCITT,
    PackBits,
}

/// What a PackBits decoder produces from the input `inp` into an output
/// buffer with `cap` bytes of room.  Each control byte `n`, taken as a
/// signed 8-bit value, either is a no-op (`-128`), repeats the next data
/// byte `2 - n` times (`-127 ..= -1`), or copies the next `n + 1` data bytes
/// verbatim (`0 ..= 127`).  Decoding stops when the output is full or the
/// input is exhausted, whichever comes first; a single run or literal that
/// would write past the end of the output is an error, rendered `None`.
pub open spec fn packbits_decode(inp: Seq<u8>, cap: nat) -> Option<Seq<u8>>
    decreases inp.len(),
{
    if inp.len() == 0 || cap == 0 {
        Some(Seq::empty())
    } else {
        let b = inp[0];
        if b == 128 {
            packbits_decode(inp.skip(1), cap)
        } else if b > 128 {
            if inp.len() == 1 {
                Some(Seq::empty())
            } else {
                let n = 257 - b;
                if n > cap {
                    Option::None
                } else {
                    match packbits_decode(inp.skip(2), (cap - n) as nat) {
                        Some(rest) => Some(Seq::new(n as nat, |j: int| inp[1]) + rest),
                        Option::None => Option::None,
                    }
                }
            }
        } else {
            let n = b + 1;
            if n > cap {
                Option::None
            } else if inp.len() - 1 < n {
                Some(inp.skip(1))
            } else {
                match packbits_decode(inp.skip(1 + n), (cap - n) as nat) {
                    Some(rest) => Some(inp.subrange(1, 1 + n) + rest),
                    Option::None => Option::None,
                }
            }
        }
    }
}

/// A PackBits decode never outgrows the room it was given.
pub proof fn lemma_packbits_decode_len(inp: Seq<u8>, cap: nat)
    requires
        packbits_decode(inp, cap) is Some,
    ensures
        packbits_decode(inp, cap).unwrap().len() <= cap,
    decreases inp.len(),
{
    if inp.len() == 0 || cap == 0 {
    } else {
        let b = inp[0];
        if b == 128 {
            lemma_packbits_decode_len(inp.skip(1), cap);
        } else if b > 128 {
            if inp.len() == 1 {
            } else {
                let n = 257 - b;
                if n <= cap {
                    lemma_packbits_decode_len(inp.skip(2), (cap - n) as nat);
                }
            }
        } else {
            let n = b + 1;
            if n <= cap {
                if inp.len() - 1 < n {
                } else {
                    lemma_packbits_decode_len(inp.skip(1 + n), (cap - n) as nat);
                }
            }
        }
    }
}

/// A PackBits encoding of `b`: plain literal runs of at most 128 bytes.
pub open spec fn packbits_pack(b: Seq<u8>) -> Seq<u8>
    decreases b.len(),
{
    if b.len() == 0 {
        Seq::empty()
    } else {
        let k: int = if b.len() >= 128 {
            128
        } else {
            b.len() as int
        };
        seq![(k - 1) as u8] + b.take(k) + packbits_pack(b.skip(k))
    }
}

/// PackBits round trip: packing any byte sequence and decoding the result
/// into a buffer of exactly the original length gives the original back.
pub proof fn lemma_packbits_round_trip(b: Seq<u8>)
    ensures
        packbits_decode(packbits_pack(b), b.len()) == Some(b),
    decreases b.len(),
{
    if b.len() == 0 {
        assert(packbits_pack(b).len() == 0);
        assert(packbits_decode(packbits_pack(b), 0) == Some(Seq::<u8>::empty()));
        assert(b =~= Seq::<u8>::empty());
    } else {
        let k: int = if b.len() >= 128 {
            128
        } else {
            b.len() as int
        };
        let inp = packbits_pack(b);
        let tail = packbits_pack(b.skip(k));
        assert(inp == seq![(k - 1) as u8] + b.take(k) + tail);
        assert(inp.len() == 1 + k + tail.len());
        assert(inp[0] == (k - 1) as u8);
        assert(0 <= k - 1 < 128);
        assert(inp[0] < 128);
        let n = inp[0] + 1;
        assert(n == k);
        assert(n <= b.len());
        assert(inp.len() - 1 >= n);
        assert(inp.subrange(1, 1 + k) =~= b.take(k));
        assert(inp.skip(1 + k) =~= tail);
        lemma_packbits_round_trip(b.skip(k));
        assert(b.skip(k).len() == b.len() - k);
        assert(packbits_decode(inp.skip(1 + k), (b.len() - k) as nat) == Some(b.skip(k)));
        assert(packbits_decode(inp, b.len()) == Some(inp.subrange(1, 1 + n) + b.skip(k)));
        assert(inp.subrange(1, 1 + n) + b.skip(k) =~= b);
    }
}

/// Fills `out[start .. start + count]` with `val`, leaving the rest as it
/// was.
fn fill_range(out: &mut Vec<u8>, start: usize, count: usize, val: u8)
    requires
        start + count <= old(out)@.len(),
    ensures
        final(out)@.len() == old(out)@.len(),
        final(out)@.take(start as int) == old(out)@.take(start as int),
        final(out)@.subrange(start as int, start + count) == Seq::new(
            count as nat,
            |j: int| val,
        ),
        final(out)@.skip(start + count) == old(out)@.skip(start + count),
{
    let len = out.len();
    assert(start + count <= len);
    let mut i: usize = 0;
    while i < count
        invariant
            i <= count,
            start + count <= out@.len(),
            start + count <= usize::MAX,
            out@.len() == old(out)@.len(),
            forall|j: int| 0 <= j < start ==> out@[j] == old(out)@[j],
            forall|j: int| start <= j < start + i ==> out@[j] == val,
            forall|j: int| start + count <= j < out@.len() ==> out@[j] == old(out)@[j],
        decreases count - i,
    {
        out.set(start + i, val);
        i = i + 1;
    }
    assert(final(out)@.take(start as int) =~= old(out)@.take(start as int));
    assert(final(out)@.subrange(start as int, start + count) =~= Seq::new(
        count as nat,
        |j: int| val,
    ));
    assert(final(out)@.skip(start + count) =~= old(out)@.skip(start + count));
}

/// Copies `src[src_start .. src_start + count]` into
/// `out[start .. start + count]`, leaving the rest as it was.
fn copy_range(out: &mut Vec<u8>, start: usize, src: &Vec<u8>, src_start: usize, count: usize)
    requires
        start + count <= old(out)@.len(),
        src_start + count <= src@.len(),
    ensures
        final(out)@.len() == old(out)@.len(),
        final(out)@.take(start as int) == old(out)@.take(start as int),
        final(out)@.subrange(start as int, start + count) == src@.subrange(
            src_start as int,
            src_start + count,
        ),
        final(out)@.skip(start + count) == old(out)@.skip(start + count),
{
    let len = out.len();
    assert(start + count <= len);
    let src_len = src.len();
    assert(src_start + count <= src_len);
    let mut i: usize = 0;
    while i < count
        invariant
            i <= count,
            start + count <= out@.len(),
            start + count <= usize::MAX,
            src_start + count <= src@.len(),
            src_start + count <= usize::MAX,
            out@.len() == old(out)@.len(),
            forall|j: int| 0 <= j < start ==> out@[j] == old(out)@[j],
            forall|j: int| start <= j < start + i ==> out@[j] == src@[src_start + (j - start)],
            forall|j: int| start + count <= j < out@.len() ==> out@[j] == old(out)@[j],
        decreases count - i,
    {
        let b = src[src_start + i];
        out.set(start + i, b);
        i = i + 1;
    }
    assert(final(out)@.take(start as int) =~= old(out)@.take(start as int));
    assert(final(out)@.subrange(start as int, start + count) =~= src@.subrange(
        src_start as int,
        src_start + count,
    ));
    assert(final(out)@.skip(start + count) =~= old(out)@.skip(start + count));
}

/// Decoding `rem` with `rem_cap` bytes of room continues a decode of `inp`
/// that has already produced `done`.
spec fn pb_resumes(
    inp: Seq<u8>,
    cap: nat,
    done: Seq<u8>,
    rem: Seq<u8>,
    rem_cap: nat,
) -> bool {
    match packbits_decode(rem, rem_cap) {
        Some(d) => packbits_decode(inp, cap) == Some(done + d),
        Option::None => packbits_decode(inp, cap) is None,
    }
}

impl Compression {
    /// Maps a compression tag value to the scheme it names.
    pub fn from_short(val: u16) -> (r: Option<Compression>)
        ensures
            r == if val == 1 {
                Some(Compression::Uncompressed)
            } else if val == 2 {
                Some(Compression::CCITT)
            } else if val == 32773 {
                Some(Compression::PackBits)
            } else {
                Option::<Compression>::None
            },
    {
        match val {
            1u16 => Some(Compression::Uncompressed),
            2u16 => Some(Compression::CCITT),
            32773u16 => Some(Compression::PackBits),
            _ => None,
        }
    }

    /// Decodes a PackBits stream into the caller-supplied buffer, whose
    /// prior contents survive past the decoded prefix.  Fails when a single
    /// run or literal would write past the end of the buffer.
    #[verifier::rlimit(60)]
    pub fn unpackbits(input: &Vec<u8>, out: &mut Vec<u8>) -> (r: Result<(), TiffError>)
        ensures
            final(out)@.len() == old(out)@.len(),
            match packbits_decode(input@, old(out)@.len() as nat) {
                Some(d) => r == Ok::<(), TiffError>(()) && d.len() <= old(out)@.len()
                    && final(out)@ == d + old(out)@.skip(d.len() as int),
                Option::None => r == Err::<(), TiffError>(TiffError::UnexpectedEof),
            },
    {
        let n_in = input.len();
        let n_out = out.len();
        proof {
            assert(input@.skip(0) =~= input@);
            if packbits_decode(input@, n_out as nat) is Some {
                let d = packbits_decode(input@, n_out as nat).unwrap();
                assert(out@.take(0) + d =~= d);
            }
        }
        let mut i: usize = 0;
        let mut o: usize = 0;
        while i < n_in && o < n_out
            invariant
                i <= n_in,
                o <= n_out,
                n_in == input@.len(),
                n_out == out@.len(),
                n_out == old(out)@.len(),
                out@.skip(o as int) == old(out)@.skip(o as int),
                pb_resumes(
                    input@,
                    n_out as nat,
                    out@.take(o as int),
                    input@.skip(i as int),
                    (n_out - o) as nat,
                ),
            decreases n_in - i,
        {
            let ghost pre = *out;
            let ghost rem0 = input@.skip(i as int);
            let b = input[i];
            if b == 128 {
                proof {
                    assert(rem0[0] == 128);
                    assert(rem0.skip(1) =~= input@.skip(i + 1));
                }
                i = i + 1;
            } else if b > 128 {
                if i + 1 == n_in {
                    proof {
                        assert(rem0.len() == 1);
                        assert(packbits_decode(rem0, (n_out - o) as nat) == Some(
                            Seq::<u8>::empty(),
                        ));
                        assert(input@.skip(n_in as int) =~= Seq::<u8>::empty());
                        assert(packbits_decode(
                            input@.skip(n_in as int),
                            (n_out - o) as nat,
                        ) == Some(Seq::<u8>::empty()));
                    }
                    i = n_in;
                } else {
                    let count = 257 - (b as usize);
                    let next = input[i + 1];
                    proof {
                        assert(rem0[0] == b);
                        assert(rem0[1] == input@[i + 1]);
                    }
                    if count > n_out - o {
                        proof {
                            assert(packbits_decode(rem0, (n_out - o) as nat) is None);
                        }
                        return Err(TiffError::UnexpectedEof);
                    }
                    fill_range(out, o, count, next);
                    proof {
                        let run = Seq::new(count as nat, |j: int| next);
                        assert(out@.take(o + count) =~= pre@.take(o as int) + run);
                        assert(rem0.skip(2) =~= input@.skip(i + 2));
                        assert(out@.skip(o + count) =~= old(out)@.skip(o + count)) by {
                            assert(pre@.skip(o as int) == old(out)@.skip(o as int));
                            assert(out@.skip(o + count) == pre@.skip(o + count));
                            assert(pre@.skip(o + count) =~= old(out)@.skip(o + count)) by {
                                assert forall|j: int|
                                    o + count <= j < n_out implies pre@[j] == old(out)@[j] by {
                                    assert(pre@.skip(o as int)[j - o] == old(out)@.skip(
                                        o as int,
                                    )[j - o]);
                                }
                            }
                        }
                        if packbits_decode(input@.skip(i + 2), (n_out - o - count) as nat)
                            is Some {
                            let rest = packbits_decode(
                                input@.skip(i + 2),
                                (n_out - o - count) as nat,
                            ).unwrap();
                            assert(packbits_decode(rem0, (n_out - o) as nat) == Some(run + rest));
                            assert(pre@.take(o as int) + (run + rest) =~= out@.take(o + count)
                                + rest);
                        }
                    }
                    i = i + 2;
                    o = o + count;
                }
            } else {
                let declared = (b as usize) + 1;
                proof {
                    assert(rem0[0] == b);
                    assert(rem0[0] < 128);
                    assert(rem0[0] + 1 == declared);
                }
                if declared > n_out - o {
                    proof {
                        assert(packbits_decode(rem0, (n_out - o) as nat) is None);
                    }
                    return Err(TiffError::UnexpectedEof);
                }
                let avail = n_in - (i + 1);
                if avail < declared {
                    copy_range(out, o, input, i + 1, avail);
                    proof {
                        assert(rem0.len() - 1 < declared);
                        assert(rem0.skip(1) =~= input@.subrange(i + 1, i + 1 + avail));
                        assert(packbits_decode(rem0, (n_out - o) as nat) == Some(rem0.skip(1)));
                        assert(out@.take(o + avail) =~= pre@.take(o as int) + rem0.skip(1));
                        assert(input@.skip(n_in as int) =~= Seq::<u8>::empty());
                        assert(out@.skip(o + avail) =~= old(out)@.skip(o + avail)) by {
                            assert forall|j: int|
                                o + avail <= j < n_out implies out@[j] == old(out)@[j] by {
                                if j >= o + avail {
                                    if j < o {
                                    } else {
                                        assert(out@.skip(o + avail)[j - o - avail] == pre@.skip(
                                            o + avail,
                                        )[j - o - avail]);
                                        assert(pre@.skip(o as int)[j - o] == old(out)@.skip(
                                            o as int,
                                        )[j - o]);
                                    }
                                }
                            }
                        }
                        let done_new = out@.take(o + avail);
                        assert(packbits_decode(
                            input@.skip(n_in as int),
                            (n_out - o - avail) as nat,
                        ) == Some(Seq::<u8>::empty()));
                        assert(done_new + Seq::<u8>::empty() =~= done_new);
                    }
                    o = o + avail;
                    i = n_in;
                } else {
                    copy_range(out, o, input, i + 1, declared);
                    proof {
                        assert(rem0.len() - 1 >= declared);
                        assert(rem0.subrange(1, 1 + declared) =~= input@.subrange(
                            i + 1,
                            i + 1 + declared,
                        ));
                        assert(out@.take(o + declared) =~= pre@.take(o as int) + rem0.subrange(
                            1,
                            1 + declared,
                        ));
                        assert(rem0.skip(1 + declared) =~= input@.skip(i + 1 + declared));
                        assert(out@.skip(o + declared) =~= old(out)@.skip(o + declared)) by {
                            assert forall|j: int|
                                o + declared <= j < n_out implies out@[j] == old(out)@[j] by {
                                assert(out@.skip(o + declared)[j - o - declared] == pre@.skip(
                                    o + declared,
                                )[j - o - declared]);
                                assert(pre@.skip(o as int)[j - o] == old(out)@.skip(
                                    o as int,
                                )[j - o]);
                            }
                        }
                        if packbits_decode(
                            input@.skip(i + 1 + declared),
                            (n_out - o - declared) as nat,
                        ) is Some {
                            let rest = packbits_decode(
                                input@.skip(i + 1 + declared),
                                (n_out - o - declared) as nat,
                            ).unwrap();
                            assert(packbits_decode(rem0, (n_out - o) as nat) == Some(
                                rem0.subrange(1, 1 + declared) + rest,
                            ));
                            assert(pre@.take(o as int) + (rem0.subrange(1, 1 + declared) + rest)
                                =~= out@.take(o + declared) + rest);
                        }
                    }
                    o = o + declared;
                    i = i + declared + 1;
                }
            }
        }
        proof {
            if i == n_in {
                assert(input@.skip(i as int) =~= Seq::<u8>::empty());
            }
            assert(packbits_decode(input@.skip(i as int), (n_out - o) as nat) == Some(
                Seq::<u8>::empty(),
            ));
            let done = out@.take(o as int);
            assert(done + Seq::<u8>::empty() =~= done);
            assert(packbits_decode(input@, n_out as nat) == Some(done));
            assert(out@ =~= done + old(out)@.skip(o as int));
        }
        Ok(())
    }
}

} // verus!
