//! The LZW dictionary coder: an adaptive pattern dictionary over a growing
//! code width, a one- or five-bit stream header, and the matching decoder.
//!
//! Codes are handed out densely from zero, so the dictionary is a list of
//! patterns indexed by code: the list plays both the pattern-to-code and the
//! code-to-pattern role.

use vstd::prelude::*;
use vstd::string::StringExecFns;

use crate::bit_io::BitReader;
use crate::bit_io::BitWriter;
use crate::bit_io::bit_at;
use crate::bit_io::bits_of_value;
use crate::bit_io::read_val_at;
use crate::bit_io::stream_bits;

verus! {

/// The pattern list as mathematical sequences.
pub open spec fn deep_dict(dict: Seq<Vec<u8>>) -> Seq<Seq<u8>> {
    Seq::new(dict.len(), |i: int| dict[i]@)
}

/// The starting dictionary: each single byte is its own code.
pub open spec fn spec_initial_dict() -> Seq<Seq<u8>> {
    Seq::new(256, |i: int| seq![i as u8])
}

/// The code of a pattern: the first index holding it, if any.
pub open spec fn spec_dict_find(dict: Seq<Seq<u8>>, pattern: Seq<u8>, n: int) -> Option<int>
    decreases n,
{
    if n <= 0 {
        Option::None
    } else {
        match spec_dict_find(dict, pattern, n - 1) {
            Option::Some(i) => Option::Some(i),
            Option::None => if dict[n - 1] == pattern {
                Option::Some(n - 1)
            } else {
                Option::None
            },
        }
    }
}

/// The stream header: one set bit selects the self-adjusting width; a clear
/// bit is followed by the fixed width less nine on three bits and one clear
/// mode bit.
pub open spec fn lzw_header_bits(auto_update: bool, manual_bits: Option<u8>) -> Seq<bool> {
    if auto_update {
        seq![true]
    } else {
        let b = match manual_bits {
            Option::Some(b) => b,
            Option::None => 9,
        };
        seq![false] + bits_of_value((b - 9) as u32, 3) + seq![false]
    }
}

/// The concatenated bits of emitted codes, each at the width current when it
/// was emitted.
pub open spec fn code_stream(codes: Seq<usize>, widths: Seq<u32>, k: int) -> Seq<bool>
    decreases k,
{
    if k <= 0 {
        Seq::empty()
    } else {
        code_stream(codes, widths, k - 1) + bits_of_value(
            codes[k - 1] as u32,
            widths[k - 1] as int,
        )
    }
}

/// The whole compressed stream: the header, the emitted codes each at its
/// emission-time width, the seven-bit end marker of set bits, and the zero
/// padding of the final byte.
pub open spec fn lzw_stream(
    auto_update: bool,
    manual_bits: Option<u8>,
    codes: Seq<usize>,
    widths: Seq<u32>,
) -> Seq<bool> {
    let body = lzw_header_bits(auto_update, manual_bits) + code_stream(
        codes,
        widths,
        codes.len() as int,
    ) + bits_of_value(0b1111111u32, 7);
    body + crate::bit_io::zero_bits(crate::bit_io::padding_of(body.len() as int))
}

/// The encoder's state between two input bytes.
pub ghost struct LzwEncodeState {
    pub dict: Seq<Seq<u8>>,
    pub pattern: Seq<u8>,
    pub width: int,
    pub max_bit_width: int,
    pub max_code: int,
    pub next: int,
    pub codes: Seq<usize>,
    pub widths: Seq<u32>,
}

/// One encoding step: extend the pattern while the dictionary knows it; at
/// the first unknown extension emit the known prefix's code at the current
/// width, widen or recycle at the cap, record the extension, and restart the
/// pattern from the new byte.
pub open spec fn lzw_encode_step(st: LzwEncodeState, byte: u8) -> LzwEncodeState {
    let extended = st.pattern.push(byte);
    if spec_dict_find(st.dict, extended, st.dict.len() as int) is Some {
        LzwEncodeState { pattern: extended, ..st }
    } else {
        let st1 = match spec_dict_find(st.dict, st.pattern, st.dict.len() as int) {
            Option::Some(code) => LzwEncodeState {
                codes: st.codes.push(code as usize),
                widths: st.widths.push(st.width as u32),
                ..st
            },
            Option::None => st,
        };
        let st2 = if st1.next >= st1.max_code {
            if st1.width < st1.max_bit_width {
                LzwEncodeState { width: st1.width + 1, max_code: st1.max_code * 2, ..st1 }
            } else {
                LzwEncodeState { dict: spec_initial_dict(), next: 256, ..st1 }
            }
        } else {
            st1
        };
        let st3 = if st2.next < st2.max_code {
            LzwEncodeState { dict: st2.dict.push(extended), next: st2.next + 1, ..st2 }
        } else {
            st2
        };
        LzwEncodeState { pattern: seq![byte], ..st3 }
    }
}

/// The encoder's state after the first `k` input bytes.
pub open spec fn lzw_encode_run(input: Seq<u8>, k: int, st0: LzwEncodeState) -> LzwEncodeState
    decreases k,
{
    if k <= 0 {
        st0
    } else {
        lzw_encode_step(lzw_encode_run(input, k - 1, st0), input[k - 1])
    }
}

/// The encoder's starting state under a given initial width and cap.
pub open spec fn lzw_encode_init(initial_bit_length: int, max_bit_width: int) -> LzwEncodeState {
    LzwEncodeState {
        dict: spec_initial_dict(),
        pattern: Seq::empty(),
        width: initial_bit_length,
        max_bit_width,
        max_code: pow2_int(initial_bit_length),
        next: 256,
        codes: Seq::empty(),
        widths: Seq::empty(),
    }
}

/// The codes and widths a whole run emits: the run over every input byte,
/// then the final pattern's code, if a pattern is pending.
pub open spec fn spec_lzw_encode(
    input: Seq<u8>,
    initial_bit_length: int,
    max_bit_width: int,
) -> LzwEncodeState {
    let st = lzw_encode_run(
        input,
        input.len() as int,
        lzw_encode_init(initial_bit_length, max_bit_width),
    );
    if st.pattern.len() > 0 {
        match spec_dict_find(st.dict, st.pattern, st.dict.len() as int) {
            Option::Some(code) => LzwEncodeState {
                codes: st.codes.push(code as usize),
                widths: st.widths.push(st.width as u32),
                ..st
            },
            Option::None => st,
        }
    } else {
        st
    }
}

/// The LZW coder: the adaptive dictionary of the current compression run,
/// freshly seeded with the 256 single-byte patterns.
pub struct LZW {
    initial_dictionary: Vec<Vec<u8>>,
}

impl LZW {
    /// The dictionary contents, pattern by code.
    pub closed spec fn dict(self) -> Seq<Seq<u8>> {
        deep_dict(self.initial_dictionary@)
    }

    pub fn new() -> (r: Self)
        ensures
            r.dict() == spec_initial_dict(),
    {
        let initial_dictionary = Self::generate_initial_dictionary();
        LZW { initial_dictionary }
    }

    /// Seeds a pattern-to-code dictionary with every single byte at its own
    /// value.
    fn generate_initial_dictionary() -> (r: Vec<Vec<u8>>)
        ensures
            deep_dict(r@) == spec_initial_dict(),
    {
        let mut dictionary: Vec<Vec<u8>> = Vec::new();
        let mut b: usize = 0;
        while b < 256
            invariant
                b <= 256,
                dictionary@.len() == b,
                forall|i: int| 0 <= i < b ==> (#[trigger] dictionary@[i])@ == seq![i as u8],
            decreases 256 - b,
        {
            let mut single: Vec<u8> = Vec::new();
            single.push(b as u8);
            proof {
                assert(single@ =~= seq![b as u8]);
            }
            dictionary.push(single);
            b = b + 1;
        }
        proof {
            assert(deep_dict(dictionary@) =~= spec_initial_dict());
        }
        dictionary
    }

    /// Seeds a code-to-pattern dictionary; with dense codes it holds the same
    /// patterns in the same positions.
    fn generate_inverse_dictionary() -> (r: Vec<Vec<u8>>)
        ensures
            deep_dict(r@) == spec_initial_dict(),
    {
        Self::generate_initial_dictionary()
    }

    /// Writes the stream header announcing how the decoder must size its
    /// code reads.
    pub fn write_header(writer: &mut BitWriter, auto_update_flag: bool, manual_bits: Option<u8>)
        requires
            old(writer).inv(),
            manual_bits matches Some(b) ==> b >= 9,
        ensures
            final(writer).inv(),
            final(writer).bits() == old(writer).bits() + lzw_header_bits(
                auto_update_flag,
                manual_bits,
            ),
    {
        if auto_update_flag {
            writer.write_bit(true);
            proof {
                assert(final(writer).bits() =~= old(writer).bits() + lzw_header_bits(
                    true,
                    manual_bits,
                ));
            }
        } else {
            writer.write_bit(false);
            let index_bits: u8 = match manual_bits {
                Some(b) => b,
                None => 9,
            };
            let encoded_size: u32 = (index_bits - 9) as u32;
            writer.write_n_bits(3, encoded_size);
            writer.write_bit(false);
            proof {
                assert(final(writer).bits() =~= old(writer).bits() + lzw_header_bits(
                    false,
                    manual_bits,
                ));
            }
        }
    }

    /// The core pass: extend the current pattern while the dictionary knows
    /// it; at the first unknown extension emit the known prefix's code, grow
    /// the width or recycle the dictionary when the code space fills, record
    /// the extension, and restart from the offending byte. Every emitted code
    /// fits the width that was current when it left.
    fn lzw_algorithm(
        &mut self,
        file_data: &[u8],
        auto_update: bool,
        initial_bit_length: u32,
        writer: &mut BitWriter,
    ) -> (r: (Vec<usize>, Ghost<Seq<u32>>))
        requires
            old(self).dict() == spec_initial_dict(),
            old(writer).inv(),
            9 <= initial_bit_length <= 15,
        ensures
            final(writer).inv(),
            r.1@.len() == r.0@.len(),
            forall|k: int| 0 <= k < r.1@.len() ==> 9 <= #[trigger] r.1@[k] <= 15,
            forall|k: int|
                0 <= k < r.0@.len() ==> (#[trigger] r.0@[k] as u64) < (1u64 << r.1@[k]),
            final(writer).bits() == old(writer).bits() + code_stream(
                r.0@,
                r.1@,
                r.0@.len() as int,
            ),
            r.0@ == spec_lzw_encode(
                file_data@,
                initial_bit_length as int,
                if auto_update {
                    15int
                } else {
                    initial_bit_length as int
                },
            ).codes,
            r.1@ == spec_lzw_encode(
                file_data@,
                initial_bit_length as int,
                if auto_update {
                    15int
                } else {
                    initial_bit_length as int
                },
            ).widths,
    {
        let ghost st0 = lzw_encode_init(
            initial_bit_length as int,
            if auto_update {
                15int
            } else {
                initial_bit_length as int
            },
        );
        let mut next_available_code: usize = 256;
        let mut current_bit_length: u32 = initial_bit_length;
        let max_bit_width: u32 = if auto_update {
            15
        } else {
            initial_bit_length
        };

        proof {
            lemma_width_shift(initial_bit_length);
        }
        let mut max_code: usize = 1usize << current_bit_length;
        let mut emitted_codes: Vec<usize> = Vec::new();
        let mut widths: Ghost<Seq<u32>> = Ghost(Seq::empty());
        let mut current_pattern: Vec<u8> = Vec::new();
        proof {
            assert(self.dict().len() == 256);
            assert(self.initial_dictionary@.len() == 256);
            lemma_pow2_int_shift(current_bit_length);
            assert(current_pattern@ =~= Seq::<u8>::empty());
            assert(lzw_encode_run(file_data@, 0, st0) == st0);
        }

        let mut k: usize = 0;
        while k < file_data.len()
            invariant
                self.initial_dictionary@.len() == next_available_code,
                writer.inv(),
                9 <= current_bit_length <= max_bit_width <= 15,
                max_bit_width as int == st0.max_bit_width,
                max_code == (1usize << current_bit_length),
                max_code as int == pow2_int(current_bit_length as int),
                next_available_code <= max_code,
                k <= file_data@.len(),
                widths@.len() == emitted_codes@.len(),
                forall|j: int| 0 <= j < widths@.len() ==> 9 <= #[trigger] widths@[j] <= 15,
                forall|j: int|
                    0 <= j < emitted_codes@.len() ==> (#[trigger] emitted_codes@[j] as u64) < (
                    1u64 << widths@[j]),
                writer.bits() == old(writer).bits() + code_stream(
                    emitted_codes@,
                    widths@,
                    emitted_codes@.len() as int,
                ),
                lzw_encode_run(file_data@, k as int, st0) == (LzwEncodeState {
                    dict: self.dict(),
                    pattern: current_pattern@,
                    width: current_bit_length as int,
                    max_bit_width: max_bit_width as int,
                    max_code: max_code as int,
                    next: next_available_code as int,
                    codes: emitted_codes@,
                    widths: widths@,
                }),
            decreases file_data@.len() - k,
        {
            let ghost st = lzw_encode_run(file_data@, k as int, st0);
            let character: u8 = file_data[k];
            let mut extended_pattern = bytes_copy(&current_pattern);
            extended_pattern.push(character);

            if dict_find(&self.initial_dictionary, &extended_pattern).is_some() {
                current_pattern = extended_pattern;
                proof {
                    assert(lzw_encode_run(file_data@, k as int + 1, st0) == lzw_encode_step(
                        st,
                        character,
                    ));
                }
            } else {
                let ghost codes0 = emitted_codes@;
                let ghost widths0 = widths@;
                self.emit_code(
                    &current_pattern,
                    current_bit_length,
                    writer,
                    &mut emitted_codes,
                    &mut widths,
                );
                proof {
                    lemma_width_shift(current_bit_length);
                    if emitted_codes@.len() > codes0.len() {
                        lemma_code_stream_push(
                            codes0,
                            widths0,
                            emitted_codes@.last(),
                            widths@.last(),
                            codes0.len() as int,
                        );
                        assert(writer.bits() =~= old(writer).bits() + code_stream(
                            emitted_codes@,
                            widths@,
                            emitted_codes@.len() as int,
                        ));
                    }
                }

                if next_available_code >= max_code {
                    self.handle_compression_dictionary_full(
                        &mut current_bit_length,
                        max_bit_width,
                        &mut max_code,
                        &mut next_available_code,
                    );
                }
                self.add_to_dictionary(extended_pattern, &mut next_available_code, max_code);
                let mut fresh: Vec<u8> = Vec::new();
                fresh.push(character);
                current_pattern = fresh;
                proof {
                    lemma_pow2_int_shift(current_bit_length);
                    assert(current_pattern@ =~= seq![character]);
                    assert(lzw_encode_run(file_data@, k as int + 1, st0) == lzw_encode_step(
                        st,
                        character,
                    ));
                    let st_after = LzwEncodeState {
                        dict: self.dict(),
                        pattern: current_pattern@,
                        width: current_bit_length as int,
                        max_bit_width: max_bit_width as int,
                        max_code: max_code as int,
                        next: next_available_code as int,
                        codes: emitted_codes@,
                        widths: widths@,
                    };
                    assert(st_after == lzw_encode_step(st, character));
                }
            }
            k = k + 1;
        }

        if current_pattern.len() > 0 {
            let ghost codes0 = emitted_codes@;
            let ghost widths0 = widths@;
            self.emit_code(
                &current_pattern,
                current_bit_length,
                writer,
                &mut emitted_codes,
                &mut widths,
            );
            proof {
                lemma_width_shift(current_bit_length);
                if emitted_codes@.len() > codes0.len() {
                    lemma_code_stream_push(
                        codes0,
                        widths0,
                        emitted_codes@.last(),
                        widths@.last(),
                        codes0.len() as int,
                    );
                    assert(writer.bits() =~= old(writer).bits() + code_stream(
                        emitted_codes@,
                        widths@,
                        emitted_codes@.len() as int,
                    ));
                }
            }
        }
        proof {
            let enc = spec_lzw_encode(
                file_data@,
                initial_bit_length as int,
                if auto_update {
                    15int
                } else {
                    initial_bit_length as int
                },
            );
            assert(emitted_codes@ == enc.codes && widths@ == enc.widths);
        }

        (emitted_codes, widths)
    }

    /// Emits the code of a known pattern at the current width; an unknown
    /// pattern emits nothing.
    fn emit_code(
        &self,
        pattern: &Vec<u8>,
        current_bit_length: u32,
        writer: &mut BitWriter,
        emitted_codes: &mut Vec<usize>,
        widths: &mut Ghost<Seq<u32>>,
    )
        requires
            old(writer).inv(),
            9 <= current_bit_length <= 15,
            self.dict().len() <= (1usize << current_bit_length),
            old(widths)@.len() == old(emitted_codes)@.len(),
        ensures
            final(writer).inv(),
            final(widths)@.len() == final(emitted_codes)@.len(),
            match spec_dict_find(self.dict(), pattern@, self.dict().len() as int) {
                Option::Some(code) => {
                    &&& final(emitted_codes)@ == old(emitted_codes)@.push(code as usize)
                    &&& final(widths)@ == old(widths)@.push(current_bit_length)
                    &&& 0 <= code < self.dict().len()
                    &&& final(writer).bits() == old(writer).bits() + bits_of_value(
                        code as u32,
                        current_bit_length as int,
                    )
                },
                Option::None => {
                    &&& final(emitted_codes)@ == old(emitted_codes)@
                    &&& final(widths)@ == old(widths)@
                    &&& final(writer).bits() == old(writer).bits()
                },
            },
    {
        match dict_find(&self.initial_dictionary, pattern) {
            Some(code) => {
                writer.write_n_bits(current_bit_length, code as u32);
                emitted_codes.push(code);
                proof {
                    widths@ = widths@.push(current_bit_length);
                }
            },
            None => {},
        }
    }

    /// When the compression code space is exhausted: widen the code by one
    /// bit while the cap allows; at the cap, recycle the dictionary back to
    /// the single-byte seeds.
    fn handle_compression_dictionary_full(
        &mut self,
        current_bit_width: &mut u32,
        max_bit_width: u32,
        max_code: &mut usize,
        next_available_code: &mut usize,
    )
        requires
            9 <= *old(current_bit_width) <= max_bit_width <= 16,
            *old(max_code) == (1usize << *old(current_bit_width)),
            *old(next_available_code) == old(self).dict().len(),
            *old(next_available_code) <= *old(max_code),
        ensures
            9 <= *final(current_bit_width) <= max_bit_width,
            *final(max_code) == (1usize << *final(current_bit_width)),
            *final(next_available_code) == final(self).dict().len(),
            *final(next_available_code) <= *final(max_code),
            *old(current_bit_width) < max_bit_width ==> {
                &&& *final(current_bit_width) == *old(current_bit_width) + 1
                &&& final(self).dict() == old(self).dict()
                &&& *final(next_available_code) == *old(next_available_code)
            },
            *old(current_bit_width) >= max_bit_width ==> {
                &&& *final(current_bit_width) == *old(current_bit_width)
                &&& final(self).dict() == spec_initial_dict()
                &&& *final(next_available_code) == 256
            },
    {
        Self::handle_decompression_dictionary_full(
            &mut self.initial_dictionary,
            current_bit_width,
            max_bit_width,
            max_code,
            next_available_code,
            true,
        );
    }

    /// When the code space is exhausted: widen the code by one bit while the
    /// cap allows; at the cap, recycle the dictionary back to the single-byte
    /// seeds (during decompression only when the stream's mode bit asked for
    /// it).
    fn handle_decompression_dictionary_full(
        dictionary: &mut Vec<Vec<u8>>,
        current_bit_width: &mut u32,
        max_bit_width: u32,
        max_code: &mut usize,
        next_available_code: &mut usize,
        recycle: bool,
    )
        requires
            9 <= *old(current_bit_width) <= max_bit_width <= 16,
            *old(max_code) == (1usize << *old(current_bit_width)),
            *old(next_available_code) == old(dictionary)@.len(),
            *old(next_available_code) <= *old(max_code),
        ensures
            9 <= *final(current_bit_width) <= max_bit_width,
            *final(max_code) == (1usize << *final(current_bit_width)),
            *final(next_available_code) == final(dictionary)@.len(),
            *final(next_available_code) <= *final(max_code),
            *old(current_bit_width) < max_bit_width ==> {
                &&& *final(current_bit_width) == *old(current_bit_width) + 1
                &&& final(dictionary)@ == old(dictionary)@
            },
            *old(current_bit_width) >= max_bit_width ==> *final(current_bit_width) == *old(
                current_bit_width,
            ),
            *old(current_bit_width) >= max_bit_width && recycle ==> deep_dict(final(dictionary)@)
                == spec_initial_dict() && *final(next_available_code) == 256,
            *old(current_bit_width) >= max_bit_width && !recycle ==> final(dictionary)@ == old(
                dictionary,
            )@ && *final(current_bit_width) == *old(current_bit_width),
    {
        if *current_bit_width < max_bit_width {
            *current_bit_width = *current_bit_width + 1;
            proof {
                lemma_width_shift(*current_bit_width);
            }
            *max_code = 1usize << *current_bit_width;
            proof {
                assert((1usize << (*current_bit_width - 1) as u32) <= (1usize
                    << *current_bit_width)) by (bit_vector)
                    requires
                        1 <= *current_bit_width <= 16,
                ;
            }
        } else if recycle {
            *dictionary = Self::generate_initial_dictionary();
            *next_available_code = 256;
            proof {
                assert(deep_dict(final(dictionary)@).len() == 256);
                assert((1usize << 9u32) >= 256 && (1usize << *current_bit_width) >= (1usize
                    << 9u32)) by (bit_vector)
                    requires
                        9 <= *current_bit_width <= 16,
                ;
            }
        }
    }

    /// Records a new pattern under the next free code while the code space
    /// has room.
    fn add_to_dictionary(&mut self, pattern: Vec<u8>, next_available_code: &mut usize, max_code: usize)
        requires
            *old(next_available_code) == old(self).dict().len(),
        ensures
            *final(next_available_code) == final(self).dict().len(),
            *old(next_available_code) < max_code ==> final(self).dict() == old(self).dict().push(
                pattern@,
            ) && *final(next_available_code) == *old(next_available_code) + 1,
            *old(next_available_code) >= max_code ==> final(self).dict() == old(self).dict()
                && *final(next_available_code) == *old(next_available_code),
    {
        if *next_available_code < max_code {
            self.initial_dictionary.push(pattern);
            *next_available_code = *next_available_code + 1;
            proof {
                assert(self.dict() =~= old(self).dict().push(pattern@));
            }
        }
    }

    /// Compresses the input: the header, then one dictionary code per maximal
    /// known pattern, a seven-bit end marker of set bits, and zero padding.
    /// Returns the bytes and the emitted codes.
    pub fn compress(
        &mut self,
        file_data: &[u8],
        auto_update: bool,
        initial_bit_width: u32,
        manual_bits: Option<u8>,
    ) -> (r: (Vec<u8>, Vec<usize>))
        requires
            old(self).dict() == spec_initial_dict(),
            9 <= initial_bit_width <= 15,
            manual_bits matches Some(b) ==> b >= 9,
        ensures
            ({
                let enc = spec_lzw_encode(
                    file_data@,
                    initial_bit_width as int,
                    if auto_update {
                        15int
                    } else {
                        initial_bit_width as int
                    },
                );
                &&& r.1@ == enc.codes
                &&& stream_bits(r.0@) == lzw_stream(auto_update, manual_bits, enc.codes, enc.widths)
            }),
    {
        let mut writer = BitWriter::new();

        Self::write_header(&mut writer, auto_update, manual_bits);

        let (emitted_codes, widths) = self.lzw_algorithm(
            file_data,
            auto_update,
            initial_bit_width,
            &mut writer,
        );

        writer.write_n_bits(7, 0b1111111);
        let r0 = writer.finish();
        proof {
            assert(writer.bits() =~= lzw_header_bits(auto_update, manual_bits) + code_stream(
                emitted_codes@,
                widths@,
                emitted_codes@.len() as int,
            ) + bits_of_value(0b1111111u32, 7));
            assert(lzw_stream(auto_update, manual_bits, emitted_codes@, widths@) == stream_bits(
                r0@,
            ));
        }
        let result = (r0, emitted_codes);
        proof {
            assert(lzw_stream(auto_update, manual_bits, result.1@, widths@) == stream_bits(
                result.0@,
            ));
        }
        result
    }

    /// Reads the stream header back: the mode bit, and for a fixed-width
    /// stream the width and the recycling flag. A stream too short for its
    /// header yields nothing.
    fn read_header(reader: &mut BitReader) -> (r: Option<(u32, u32, bool)>)
        requires
            old(reader).inv(),
            old(reader).pos() == 0,
        ensures
            final(reader).inv(),
            final(reader).bits() == old(reader).bits(),
            match r {
                Some(h) => {
                    &&& 9 <= h.0 <= h.1 <= 16
                    &&& (bit_at(old(reader).bits(), 0) ==> h == (9u32, 15u32, false)
                        && final(reader).pos() == 1)
                    &&& (!bit_at(old(reader).bits(), 0) ==> {
                        &&& old(reader).bits().len() >= 5
                        &&& h.0 == read_val_at(old(reader).bits(), 1, 3) + 9
                        &&& h.1 == h.0
                        &&& h.2 == !bit_at(old(reader).bits(), 4)
                        &&& final(reader).pos() == 5
                    })
                    &&& old(reader).bits().len() >= 1
                },
                None => {
                    &&& final(reader).pos() == final(reader).bits().len()
                    &&& (old(reader).bits().len() == 0 || (!bit_at(old(reader).bits(), 0) && old(
                        reader,
                    ).bits().len() < 5))
                },
            },
    {
        let ghost bits = reader.bits();
        let auto_update: bool = match reader.read_bit() {
            Some(b) => b,
            None => {
                return None;
            },
        };

        if auto_update {
            Some((9, 15, false))
        } else {
            let size_bits: u32 = match reader.read_n_bits(3) {
                Some(v) => v,
                None => {
                    return None;
                },
            };
            let mode_bit: bool = match reader.read_bit() {
                Some(b) => b,
                None => {
                    return None;
                },
            };
            proof {
                crate::bit_io::lemma_value_of_bits_bound(bits.subrange(1, 4));
                assert((1u64 << 3u32) == 8) by (bit_vector);
                assert(mode_bit == bit_at(bits, 4));
            }
            let bit_width: u32 = size_bits + 9;
            Some((bit_width, bit_width, !mode_bit))
        }
    }

    /// Expands a pattern code: a known code yields its pattern; the one code
    /// just past the dictionary yields the previous pattern extended by its
    /// own first byte; anything else yields nothing.
    fn decode_pattern(
        dictionary: &Vec<Vec<u8>>,
        current_code: usize,
        previous_code: usize,
        next_available_code: usize,
    ) -> (r: Vec<u8>)
        requires
            next_available_code == dictionary@.len(),
            forall|i: int|
                0 <= i < dictionary@.len() ==> (#[trigger] deep_dict(dictionary@)[i]).len() > 0,
        ensures
            r@ == spec_decode_pattern(deep_dict(dictionary@), current_code as int, previous_code as int),
    {
        if current_code < dictionary.len() {
            bytes_copy(&dictionary[current_code])
        } else if current_code == next_available_code && previous_code < dictionary.len() {
            let mut pattern = bytes_copy(&dictionary[previous_code]);
            proof {
                assert(pattern@ == deep_dict(dictionary@)[previous_code as int]);
            }
            let first: u8 = pattern[0];
            pattern.push(first);
            pattern
        } else {
            Vec::new()
        }
    }

    /// Records the next dictionary entry during decompression: the previous
    /// pattern extended by the first byte of the current one. A previous code
    /// the dictionary does not know records nothing.
    fn add_decompression_entry(
        dictionary: &mut Vec<Vec<u8>>,
        previous_code: usize,
        first_char: u8,
        next_available_code: usize,
    )
        requires
            next_available_code == old(dictionary)@.len(),
        ensures
            previous_code < old(dictionary)@.len() ==> deep_dict(final(dictionary)@) == deep_dict(
                old(dictionary)@,
            ).push(old(dictionary)@[previous_code as int]@.push(first_char)),
            previous_code >= old(dictionary)@.len() ==> final(dictionary)@ == old(dictionary)@,
            final(dictionary)@.len() == old(dictionary)@.len() + (if previous_code < old(
                dictionary,
            )@.len() {
                1int
            } else {
                0int
            }),
    {
        if previous_code < dictionary.len() {
            let mut new_entry = bytes_copy(&dictionary[previous_code]);
            new_entry.push(first_char);
            dictionary.push(new_entry);
            proof {
                assert(deep_dict(dictionary@) =~= deep_dict(old(dictionary)@).push(
                    old(dictionary)@[previous_code as int]@.push(first_char),
                ));
            }
        }
    }

    /// Decompresses a stream: reads the header, then one code at the current
    /// width after another, expanding each against the rebuilt dictionary,
    /// until the stream runs out. Returns the bytes and the codes read.
    pub fn decompress(&self, compressed_data: &[u8]) -> (r: (Vec<u8>, Vec<usize>))
        ensures
            r.0@ == spec_lzw_decompress(compressed_data@).0,
            r.1@ == spec_lzw_decompress(compressed_data@).1,
            forall|k: int| 0 <= k < r.1@.len() ==> #[trigger] r.1@[k] < 65536,
    {
        let ghost bits = stream_bits(compressed_data@);
        let ghost target = spec_lzw_decompress(compressed_data@);
        let mut output: Vec<u8> = Vec::new();
        let mut decoded_codes: Vec<usize> = Vec::new();
        let mut reader = BitReader::new(compressed_data);

        let header = match Self::read_header(&mut reader) {
            Some(h) => h,
            None => {
                proof {
                    assert(target == (Seq::<u8>::empty(), Seq::<usize>::empty()));
                }
                return (output, decoded_codes);
            },
        };
        let mut current_bit_width: u32 = header.0;
        let max_bit_width: u32 = header.1;
        let use_empty_mode: bool = header.2;
        let ghost w0 = current_bit_width as int;

        let mut dictionary = Self::generate_inverse_dictionary();
        proof {
            lemma_width_shift(current_bit_width);
            lemma_initial_dict_facts();
            assert forall|i: int| 0 <= i < dictionary@.len() implies (#[trigger] deep_dict(
                dictionary@,
            )[i]).len() > 0 by {
                assert(deep_dict(dictionary@)[i] == spec_initial_dict()[i]);
            };
        }
        let mut max_code: usize = 1usize << current_bit_width;
        let mut next_available_code: usize = 256;

        let ghost pos0 = reader.pos();
        let first_code: usize = match reader.read_n_bits(current_bit_width) {
            Some(code) => code as usize,
            None => {
                proof {
                    assert(target == (Seq::<u8>::empty(), Seq::<usize>::empty()));
                }
                return (output, decoded_codes);
            },
        };
        proof {
            crate::bit_io::lemma_value_of_bits_bound(
                reader.bits().subrange(pos0, pos0 + current_bit_width),
            );
            lemma_width_cap(current_bit_width);
            lemma_pow2_int_shift(current_bit_width);
        }

        if first_code < dictionary.len() {
            let pattern = bytes_copy(&dictionary[first_code]);
            push_all(&mut output, &pattern);
            decoded_codes.push(first_code);
        }

        let mut previous_code: usize = first_code;
        proof {
            let st0 = LzwDecodeState {
                dict: spec_initial_dict(),
                width: w0,
                max_bit_width: max_bit_width as int,
                max_code: pow2_int(w0),
                next: 256,
                prev: first_code as int,
                use_empty: use_empty_mode,
                out: output@,
                codes: decoded_codes@,
            };
            assert(first_code < 256 ==> output@ =~= spec_initial_dict()[first_code as int]
                && decoded_codes@ =~= seq![first_code]);
            assert(first_code >= 256 ==> output@ =~= Seq::<u8>::empty() && decoded_codes@
                =~= Seq::<usize>::empty());
            assert(target == (lzw_decode_run(bits, pos0 + w0, st0).out, lzw_decode_run(
                bits,
                pos0 + w0,
                st0,
            ).codes));
        }

        loop
            invariant
                reader.inv(),
                reader.bits() == bits,
                bits == stream_bits(compressed_data@),
                0 <= reader.pos() <= reader.bits().len(),
                9 <= current_bit_width <= max_bit_width <= 16,
                max_code == (1usize << current_bit_width),
                max_code as int == pow2_int(current_bit_width as int),
                next_available_code == dictionary@.len(),
                next_available_code <= max_code,
                forall|i: int|
                    0 <= i < dictionary@.len() ==> (#[trigger] deep_dict(dictionary@)[i]).len()
                        > 0,
                forall|k: int| 0 <= k < decoded_codes@.len() ==> #[trigger] decoded_codes@[k]
                    < 65536,
                previous_code < 65536,
                target == (lzw_decode_run(
                    bits,
                    reader.pos(),
                    LzwDecodeState {
                        dict: deep_dict(dictionary@),
                        width: current_bit_width as int,
                        max_bit_width: max_bit_width as int,
                        max_code: max_code as int,
                        next: next_available_code as int,
                        prev: previous_code as int,
                        use_empty: use_empty_mode,
                        out: output@,
                        codes: decoded_codes@,
                    },
                ).out, lzw_decode_run(
                    bits,
                    reader.pos(),
                    LzwDecodeState {
                        dict: deep_dict(dictionary@),
                        width: current_bit_width as int,
                        max_bit_width: max_bit_width as int,
                        max_code: max_code as int,
                        next: next_available_code as int,
                        prev: previous_code as int,
                        use_empty: use_empty_mode,
                        out: output@,
                        codes: decoded_codes@,
                    },
                ).codes),
            ensures
                output@ == target.0,
                decoded_codes@ == target.1,
            decreases reader.bits().len() - reader.pos(),
        {
            let ghost pos0 = reader.pos();
            let ghost st = LzwDecodeState {
                dict: deep_dict(dictionary@),
                width: current_bit_width as int,
                max_bit_width: max_bit_width as int,
                max_code: max_code as int,
                next: next_available_code as int,
                prev: previous_code as int,
                use_empty: use_empty_mode,
                out: output@,
                codes: decoded_codes@,
            };
            let current_code: usize = match reader.read_n_bits(current_bit_width) {
                Some(v) => v as usize,
                None => {
                    proof {
                        assert(lzw_decode_run(bits, pos0, st) == st);
                    }
                    break ;
                },
            };
            proof {
                crate::bit_io::lemma_value_of_bits_bound(
                    reader.bits().subrange(pos0, pos0 + current_bit_width),
                );
                lemma_width_cap(current_bit_width);
                assert(current_code as int == read_val_at(bits, pos0, current_bit_width as int));
                assert(lzw_decode_run(bits, pos0, st) == lzw_decode_run(
                    bits,
                    pos0 + current_bit_width,
                    lzw_decode_step(st, current_code),
                ));
            }
            let ghost st_step = lzw_decode_step(st, current_code);
            decoded_codes.push(current_code);

            let decoded_pattern = Self::decode_pattern(
                &dictionary,
                current_code,
                previous_code,
                next_available_code,
            );

            push_all(&mut output, &decoded_pattern);
            proof {
                assert(output@ == st_step.out);
                assert(decoded_codes@ == st_step.codes);
            }
            if decoded_pattern.len() > 0 && next_available_code < max_code {
                let first: u8 = decoded_pattern[0];
                let before: usize = dictionary.len();
                let ghost dict_before = deep_dict(dictionary@);
                Self::add_decompression_entry(
                    &mut dictionary,
                    previous_code,
                    first,
                    next_available_code,
                );
                proof {
                    assert forall|i: int| 0 <= i < dictionary@.len() implies (
                    #[trigger] deep_dict(dictionary@)[i]).len() > 0 by {
                        if i < dict_before.len() {
                            assert(deep_dict(dictionary@)[i] == dict_before[i]);
                        }
                    };
                }
                if dictionary.len() > before {
                    next_available_code = next_available_code + 1;
                }
            }
            proof {
                let pattern = spec_decode_pattern(st.dict, current_code as int, st.prev);
                let st1 = LzwDecodeState {
                    out: st.out + pattern,
                    codes: st.codes.push(current_code),
                    ..st
                };
                let st2 = if pattern.len() > 0 && st.next < st.max_code && 0 <= st.prev
                    < st.dict.len() {
                    LzwDecodeState {
                        dict: st.dict.push(st.dict[st.prev].push(pattern[0])),
                        next: st.next + 1,
                        ..st1
                    }
                } else {
                    st1
                };
                assert(deep_dict(dictionary@) == st2.dict);
                assert(next_available_code as int == st2.next);
                assert(output@ == st2.out);
                assert(decoded_codes@ == st2.codes);
            }

            if next_available_code >= max_code {
                let ghost dict_before = deep_dict(dictionary@);
                let ghost width_before = current_bit_width;
                Self::handle_decompression_dictionary_full(
                    &mut dictionary,
                    &mut current_bit_width,
                    max_bit_width,
                    &mut max_code,
                    &mut next_available_code,
                    use_empty_mode,
                );
                proof {
                    lemma_initial_dict_facts();
                    assert forall|i: int| 0 <= i < dictionary@.len() implies (
                    #[trigger] deep_dict(dictionary@)[i]).len() > 0 by {
                        if deep_dict(dictionary@) == spec_initial_dict() {
                            assert(deep_dict(dictionary@)[i] == spec_initial_dict()[i]);
                        } else {
                            assert(deep_dict(dictionary@)[i] == dict_before[i]);
                        }
                    };
                    if width_before < max_bit_width {
                        assert((1usize << current_bit_width) as int == 2 * ((1usize
                            << width_before) as int)) by (bit_vector)
                            requires
                                current_bit_width == width_before + 1,
                                width_before <= 15,
                        ;
                    }
                    lemma_pow2_int_shift(current_bit_width);
                }
            }
            proof {
                lemma_pow2_int_shift(current_bit_width);
            }

            previous_code = current_code;
            proof {
                let pattern = spec_decode_pattern(st.dict, current_code as int, st.prev);
                let st1 = LzwDecodeState {
                    out: st.out + pattern,
                    codes: st.codes.push(current_code),
                    ..st
                };
                let st2 = if pattern.len() > 0 && st.next < st.max_code && 0 <= st.prev
                    < st.dict.len() {
                    LzwDecodeState {
                        dict: st.dict.push(st.dict[st.prev].push(pattern[0])),
                        next: st.next + 1,
                        ..st1
                    }
                } else {
                    st1
                };
                let st3 = if st2.next >= st2.max_code {
                    if st2.width < st2.max_bit_width {
                        LzwDecodeState { width: st2.width + 1, max_code: st2.max_code * 2, ..st2 }
                    } else if st2.use_empty {
                        LzwDecodeState { dict: spec_initial_dict(), next: 256, ..st2 }
                    } else {
                        st2
                    }
                } else {
                    st2
                };
                assert(lzw_decode_step(st, current_code) == LzwDecodeState {
                    prev: current_code as int,
                    ..st3
                });
                assert(deep_dict(dictionary@) == st3.dict);
                assert(next_available_code as int == st3.next);
                assert(current_bit_width as int == st3.width);
                assert(max_code as int == st3.max_code);
                let st_after = LzwDecodeState {
                    dict: deep_dict(dictionary@),
                    width: current_bit_width as int,
                    max_bit_width: max_bit_width as int,
                    max_code: max_code as int,
                    next: next_available_code as int,
                    prev: previous_code as int,
                    use_empty: use_empty_mode,
                    out: output@,
                    codes: decoded_codes@,
                };
                assert(st_after == lzw_decode_step(st, current_code));
            }
        }

        proof {
            assert(output@ == target.0 && decoded_codes@ == target.1);
        }
        (output, decoded_codes)
    }
}

/// The decoder's state between two code reads.
pub ghost struct LzwDecodeState {
    pub dict: Seq<Seq<u8>>,
    pub width: int,
    pub max_bit_width: int,
    pub max_code: int,
    pub next: int,
    pub prev: int,
    pub use_empty: bool,
    pub out: Seq<u8>,
    pub codes: Seq<usize>,
}

/// One decoding step: expand the code against the dictionary, record the new
/// entry while the code space has room, then widen or recycle at the cap, and
/// remember the code.
pub open spec fn lzw_decode_step(st: LzwDecodeState, code: usize) -> LzwDecodeState {
    let pattern = spec_decode_pattern(st.dict, code as int, st.prev);
    let st1 = LzwDecodeState {
        out: st.out + pattern,
        codes: st.codes.push(code),
        ..st
    };
    let st2 = if pattern.len() > 0 && st.next < st.max_code && 0 <= st.prev < st.dict.len() {
        LzwDecodeState {
            dict: st.dict.push(st.dict[st.prev].push(pattern[0])),
            next: st.next + 1,
            ..st1
        }
    } else {
        st1
    };
    let st3 = if st2.next >= st2.max_code {
        if st2.width < st2.max_bit_width {
            LzwDecodeState { width: st2.width + 1, max_code: st2.max_code * 2, ..st2 }
        } else if st2.use_empty {
            LzwDecodeState { dict: spec_initial_dict(), next: 256, ..st2 }
        } else {
            st2
        }
    } else {
        st2
    };
    LzwDecodeState { prev: code as int, ..st3 }
}

/// The decoder's run from bit position `pos`: one code at the current width
/// per step, while a whole code remains.
pub open spec fn lzw_decode_run(bits: Seq<bool>, pos: int, st: LzwDecodeState) -> LzwDecodeState
    decreases bits.len() - pos,
{
    if st.width < 9 || pos < 0 || pos + st.width > bits.len() {
        st
    } else {
        lzw_decode_run(
            bits,
            pos + st.width,
            lzw_decode_step(st, read_val_at(bits, pos, st.width) as usize),
        )
    }
}

/// What `decompress` returns for a byte buffer: the header selects the
/// starting state, the first code seeds the output and the previous-pattern
/// register, and the run of the remaining codes does the rest. A stream too
/// short for its header or its first code yields nothing.
pub open spec fn spec_lzw_decompress(input: Seq<u8>) -> (Seq<u8>, Seq<usize>) {
    let bits = stream_bits(input);
    let empty_result = (Seq::<u8>::empty(), Seq::<usize>::empty());
    if bits.len() < 1 {
        empty_result
    } else {
        let auto = bit_at(bits, 0);
        if !auto && bits.len() < 5 {
            empty_result
        } else {
            let w0: int = if auto {
                9
            } else {
                read_val_at(bits, 1, 3) + 9
            };
            let maxw: int = if auto {
                15
            } else {
                w0
            };
            let use_empty: bool = if auto {
                false
            } else {
                !bit_at(bits, 4)
            };
            let pos0: int = if auto {
                1
            } else {
                5
            };
            if pos0 + w0 > bits.len() {
                empty_result
            } else {
                let first = read_val_at(bits, pos0, w0) as usize;
                let out0: Seq<u8> = if first < 256 {
                    spec_initial_dict()[first as int]
                } else {
                    Seq::empty()
                };
                let codes0: Seq<usize> = if first < 256 {
                    seq![first]
                } else {
                    Seq::empty()
                };
                let st0 = LzwDecodeState {
                    dict: spec_initial_dict(),
                    width: w0,
                    max_bit_width: maxw,
                    max_code: pow2_int(w0),
                    next: 256,
                    prev: first as int,
                    use_empty,
                    out: out0,
                    codes: codes0,
                };
                let fin = lzw_decode_run(bits, pos0 + w0, st0);
                (fin.out, fin.codes)
            }
        }
    }
}

/// Powers of two, for the code-space cap.
pub open spec fn pow2_int(w: int) -> int
    decreases w,
{
    if w <= 0 {
        1
    } else {
        2 * pow2_int(w - 1)
    }
}

/// What expanding one code yields against a dictionary state.
pub open spec fn spec_decode_pattern(dict: Seq<Seq<u8>>, current: int, previous: int) -> Seq<u8> {
    if 0 <= current < dict.len() {
        dict[current]
    } else if current == dict.len() && 0 <= previous < dict.len() && dict[previous].len() > 0 {
        dict[previous].push(dict[previous][0])
    } else {
        Seq::empty()
    }
}

/// A fresh copy of a byte pattern.
fn bytes_copy(v: &Vec<u8>) -> (r: Vec<u8>)
    ensures
        r@ == v@,
{
    let mut r: Vec<u8> = Vec::new();
    let mut i: usize = 0;
    while i < v.len()
        invariant
            i <= v@.len(),
            r@ == v@.take(i as int),
        decreases v@.len() - i,
    {
        r.push(v[i]);
        proof {
            assert(r@ =~= v@.take(i as int + 1));
        }
        i = i + 1;
    }
    proof {
        assert(v@.take(v@.len() as int) =~= v@);
    }
    r
}

/// Appends a whole byte pattern to the output.
fn push_all(out: &mut Vec<u8>, src: &Vec<u8>)
    ensures
        final(out)@ == old(out)@ + src@,
{
    let mut i: usize = 0;
    while i < src.len()
        invariant
            i <= src@.len(),
            out@ == old(out)@ + src@.take(i as int),
        decreases src@.len() - i,
    {
        out.push(src[i]);
        proof {
            assert(out@ =~= old(out)@ + src@.take(i as int + 1));
        }
        i = i + 1;
    }
    proof {
        assert(out@ =~= old(out)@ + src@);
    }
}

/// The first code of a pattern in the dictionary, scanning from code zero.
fn dict_find(dict: &Vec<Vec<u8>>, pattern: &Vec<u8>) -> (r: Option<usize>)
    ensures
        match r {
            Some(i) => spec_dict_find(deep_dict(dict@), pattern@, dict@.len() as int) == Some(
                i as int,
            ) && i < dict@.len(),
            None => spec_dict_find(deep_dict(dict@), pattern@, dict@.len() as int) is None,
        },
{
    let mut i: usize = 0;
    while i < dict.len()
        invariant
            i <= dict@.len(),
            spec_dict_find(deep_dict(dict@), pattern@, i as int) is None,
        decreases dict@.len() - i,
    {
        if bytes_equal(&dict[i], pattern) {
            proof {
                lemma_dict_find_extend(deep_dict(dict@), pattern@, i as int, dict@.len() as int);
            }
            return Some(i);
        }
        i = i + 1;
    }
    None
}

/// Whether two byte patterns hold the same bytes.
fn bytes_equal(a: &Vec<u8>, b: &Vec<u8>) -> (r: bool)
    ensures
        r == (a@ == b@),
{
    if a.len() != b.len() {
        proof {
            assert(a@ != b@);
        }
        return false;
    }
    let mut i: usize = 0;
    while i < a.len()
        invariant
            i <= a@.len(),
            a@.len() == b@.len(),
            forall|j: int| 0 <= j < i ==> a@[j] == b@[j],
        decreases a@.len() - i,
    {
        if a[i] != b[i] {
            proof {
                assert(a@ != b@);
            }
            return false;
        }
        i = i + 1;
    }
    proof {
        assert(a@ =~= b@);
    }
    true
}

/// Once a search hits at `i`, every longer scan reports the same first hit.
proof fn lemma_dict_find_extend(dict: Seq<Seq<u8>>, pattern: Seq<u8>, i: int, n: int)
    requires
        0 <= i < n <= dict.len(),
        spec_dict_find(dict, pattern, i) is None,
        dict[i] == pattern,
    ensures
        spec_dict_find(dict, pattern, n) == Some(i),
    decreases n,
{
    if n - 1 > i {
        lemma_dict_find_extend(dict, pattern, i, n - 1);
    }
}

/// Appending one emitted code leaves the earlier codes' bits unchanged.
proof fn lemma_code_stream_push(codes: Seq<usize>, widths: Seq<u32>, c: usize, w: u32, k: int)
    requires
        k <= codes.len(),
        k <= widths.len(),
    ensures
        code_stream(codes.push(c), widths.push(w), k) == code_stream(codes, widths, k),
    decreases k,
{
    if k > 0 {
        lemma_code_stream_push(codes, widths, c, w, k - 1);
    }
}

/// The machine shift and the mathematical power of two agree for header
/// widths.
proof fn lemma_pow2_int_shift(w: u32)
    requires
        w <= 16,
    ensures
        (1usize << w) as int == pow2_int(w as int),
    decreases w,
{
    if w == 0 {
        assert((1usize << 0u32) == 1) by (bit_vector);
    } else {
        lemma_pow2_int_shift((w - 1) as u32);
        assert((1usize << w) == 2 * (1usize << ((w - 1) as u32))) by (bit_vector)
            requires
                1 <= w <= 16,
        ;
    }
}

/// A value of at most sixteen bits is below the code space cap.
proof fn lemma_width_cap(w: u32)
    by (bit_vector)
    requires
        w <= 16,
    ensures
        (1u64 << w) <= 65536,
{
}

/// Header widths give code spaces between 512 and 65536, the same value
/// whether measured in machine words or in 64-bit arithmetic.
proof fn lemma_width_shift(w: u32)
    by (bit_vector)
    requires
        9 <= w <= 16,
    ensures
        512 <= (1usize << w),
        (1usize << w) <= 65536,
        ((1usize << w) as u64) == (1u64 << w),
{
}

/// The seeded dictionary has 256 entries, each one byte long.
proof fn lemma_initial_dict_facts()
    ensures
        spec_initial_dict().len() == 256,
        forall|i: int| 0 <= i < 256 ==> (#[trigger] spec_initial_dict()[i]).len() == 1,
{
}

/// A compression request carrying its payload in the caller's transport
/// encoding.
pub struct CompressRequest {
    pub filename: String,
    pub data: String,
}

/// A decompression request carrying its payload in the caller's transport
/// encoding.
pub struct DecompressRequest {
    pub filename: String,
    pub data: String,
}

/// Upload options for encoding: the self-adjusting width, a fixed width, and
/// the diagnostic code dump.
pub struct EncodingOptions {
    pub auto_update_index: bool,
    pub manual_index_bits: Option<u8>,
    pub show_emitted_codes: bool,
}

/// Upload options for decoding: the diagnostic code dump.
pub struct DecodingOptions {
    pub show_codes: bool,
}

/// What a decoding run reports back.
pub struct DecodeResponse {
    pub success: bool,
    pub message: String,
    pub filename: String,
    pub original_size: usize,
    pub decompressed_size: usize,
    pub codes: Option<Vec<(String, String)>>,
    pub file_data: String,
}

/// The error shape the callers present to their users.
pub struct ErrorResponse {
    pub success: bool,
    pub error: String,
}

impl EncodingOptions {
    /// A fixed width must be given unless the width adjusts itself, and must
    /// lie between nine and fifteen bits.
    pub fn validate(&self) -> (r: Result<(), String>)
        ensures
            r is Ok <==> (self.auto_update_index || (self.manual_index_bits matches Some(b) && 9
                <= b <= 15)),
            forall|b: u8|
                (!self.auto_update_index && self.manual_index_bits == Some(b) && !(9 <= b <= 15))
                    ==> (r matches Err(m) && m@ == "Manual index bits must be between 9-15, got "@
                    + #[trigger] dec_chars(b as int)),
            (!self.auto_update_index && self.manual_index_bits is None) ==> (r matches Err(m) && m@
                == "Manual index bits required when auto_update_index is false"@),
    {
        if !self.auto_update_index {
            match self.manual_index_bits {
                Some(bits) => {
                    if 9 <= bits && bits <= 15 {
                        Ok(())
                    } else {
                        let mut m = String::from_str(
                            "Manual index bits must be between 9-15, got ",
                        );
                        let digits = u8_decimal(bits);
                        m.append(digits.as_str());
                        Err(m)
                    }
                },
                None => Err(
                    String::from_str("Manual index bits required when auto_update_index is false"),
                ),
            }
        } else {
            Ok(())
        }
    }

    /// The width the coder starts with: nine in self-adjusting mode, else the
    /// fixed width, defaulting to nine.
    pub fn get_initial_bit_width(&self) -> (r: u32)
        ensures
            r == if self.auto_update_index {
                9int
            } else {
                match self.manual_index_bits {
                    Some(bits) => bits as int,
                    None => 9int,
                }
            },
    {
        if self.auto_update_index {
            9
        } else {
            match self.manual_index_bits {
                Some(bits) => bits as u32,
                None => 9,
            }
        }
    }
}

/// The decimal digit characters of a byte value, most significant first,
/// without leading zeros.
pub open spec fn dec_chars(n: int) -> Seq<char> {
    if n < 10 {
        seq![digit_char(n)]
    } else if n < 100 {
        seq![digit_char(n / 10), digit_char(n % 10)]
    } else {
        seq![digit_char(n / 100), digit_char((n / 10) % 10), digit_char(n % 10)]
    }
}

/// The character of one decimal digit.
pub open spec fn digit_char(d: int) -> char {
    if d == 0 {
        '0'
    } else if d == 1 {
        '1'
    } else if d == 2 {
        '2'
    } else if d == 3 {
        '3'
    } else if d == 4 {
        '4'
    } else if d == 5 {
        '5'
    } else if d == 6 {
        '6'
    } else if d == 7 {
        '7'
    } else if d == 8 {
        '8'
    } else {
        '9'
    }
}

/// One decimal digit as a string slice.
fn digit_str(d: u8) -> (r: &'static str)
    requires
        d <= 9,
    ensures
        r@ == seq![digit_char(d as int)],
{
    if d == 0 {
        proof {
            reveal_strlit("0");
        }
        let r = "0";
        proof {
            assert(r@ =~= seq![digit_char(0)]);
        }
        r
    } else if d == 1 {
        proof {
            reveal_strlit("1");
        }
        let r = "1";
        proof {
            assert(r@ =~= seq![digit_char(1)]);
        }
        r
    } else if d == 2 {
        proof {
            reveal_strlit("2");
        }
        let r = "2";
        proof {
            assert(r@ =~= seq![digit_char(2)]);
        }
        r
    } else if d == 3 {
        proof {
            reveal_strlit("3");
        }
        let r = "3";
        proof {
            assert(r@ =~= seq![digit_char(3)]);
        }
        r
    } else if d == 4 {
        proof {
            reveal_strlit("4");
        }
        let r = "4";
        proof {
            assert(r@ =~= seq![digit_char(4)]);
        }
        r
    } else if d == 5 {
        proof {
            reveal_strlit("5");
        }
        let r = "5";
        proof {
            assert(r@ =~= seq![digit_char(5)]);
        }
        r
    } else if d == 6 {
        proof {
            reveal_strlit("6");
        }
        let r = "6";
        proof {
            assert(r@ =~= seq![digit_char(6)]);
        }
        r
    } else if d == 7 {
        proof {
            reveal_strlit("7");
        }
        let r = "7";
        proof {
            assert(r@ =~= seq![digit_char(7)]);
        }
        r
    } else if d == 8 {
        proof {
            reveal_strlit("8");
        }
        let r = "8";
        proof {
            assert(r@ =~= seq![digit_char(8)]);
        }
        r
    } else {
        proof {
            reveal_strlit("9");
        }
        let r = "9";
        proof {
            assert(r@ =~= seq![digit_char(9)]);
        }
        r
    }
}

/// The decimal digits of a byte value as a fresh string.
fn u8_decimal(n: u8) -> (s: String)
    ensures
        s@ == dec_chars(n as int),
{
    let mut s = String::new();
    if n >= 100 {
        s.append(digit_str(n / 100));
        s.append(digit_str((n / 10) % 10));
        s.append(digit_str(n % 10));
        proof {
            assert(s@ =~= dec_chars(n as int));
        }
    } else if n >= 10 {
        s.append(digit_str(n / 10));
        s.append(digit_str(n % 10));
        proof {
            assert(s@ =~= dec_chars(n as int));
        }
    } else {
        s.append(digit_str(n));
        proof {
            assert(s@ =~= dec_chars(n as int));
        }
    }
    s
}

} // verus!
