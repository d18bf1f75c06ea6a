//! The LZ77 sliding-window coder: a greedy longest-match tokenizer over a
//! bounded search window, a fixed-width token stream with a 7-bit header, and
//! the matching decoder.

use vstd::prelude::*;

use crate::bit_io::BitReader;
use crate::bit_io::BitWriter;
use crate::bit_io::bits_of_value;
use crate::bit_io::padding_of;
use crate::bit_io::read_val_at;
use crate::bit_io::stream_bits;
use crate::bit_io::zero_bits;

verus! {

/// One token of the stream: a back-reference of `match_length` bytes starting
/// `offset` bytes behind the write position, followed by one literal byte.
pub struct Token {
    pub offset: usize,
    pub match_length: usize,
    pub next_char: u8,
}

impl Token {
    pub fn new(offset: usize, length: usize, next_char: u8) -> (r: Self)
        ensures
            r.offset == offset,
            r.match_length == length,
            r.next_char == next_char,
    {
        Self { offset, match_length: length, next_char }
    }
}

/// The bits one token occupies: its offset, its length, and its literal, each
/// at the configured width, most significant bit first.
pub open spec fn token_bits(t: Token, ob: int, lb: int) -> Seq<bool> {
    bits_of_value(t.offset as u32, ob) + bits_of_value(t.match_length as u32, lb) + bits_of_value(
        t.next_char as u32,
        8,
    )
}

/// The concatenated bits of the first `k` tokens.
pub open spec fn tokens_bits(ts: Seq<Token>, ob: int, lb: int, k: int) -> Seq<bool>
    decreases k,
{
    if k <= 0 {
        Seq::empty()
    } else {
        tokens_bits(ts, ob, lb, k - 1) + token_bits(ts[k - 1], ob, lb)
    }
}

/// The stream header: the offset width in four bits, the length width in
/// three.
pub open spec fn lz_header_bits(ob: int, lb: int) -> Seq<bool> {
    bits_of_value(ob as u32, 4) + bits_of_value(lb as u32, 3)
}

/// How many input bytes the first `k` tokens stand for: each covers its match
/// and one literal.
pub open spec fn tokens_coverage(ts: Seq<Token>, k: int) -> int
    decreases k,
{
    if k <= 0 {
        0
    } else {
        tokens_coverage(ts, k - 1) + ts[k - 1].match_length + 1
    }
}

/// The first `k` tokens describe the input faithfully: each token's literal
/// is the input byte right behind its match, and its match region repeats the
/// input at its back-reference, so expanding the tokens in order rebuilds the
/// input.
pub open spec fn tokens_reproduce(ts: Seq<Token>, input: Seq<u8>, k: int) -> bool
    decreases k,
{
    if k <= 0 {
        true
    } else {
        &&& tokens_reproduce(ts, input, k - 1)
        &&& ({
            let g = tokens_coverage(ts, k - 1);
            let t = ts[k - 1];
            &&& g + t.match_length < input.len()
            &&& t.next_char == input[g + t.match_length]
            &&& (t.match_length > 0 ==> 1 <= t.offset <= g)
            &&& forall|j: int|
                0 <= j < t.match_length ==> input[g - t.offset + j] == #[trigger] input[g + j]
        })
    }
}

/// Expanding one back-reference: append `len` bytes starting at `start`, each
/// read from the output as it grows, so a match may overlap its own copy.
pub open spec fn copy_expand(out: Seq<u8>, start: int, len: int) -> Seq<u8>
    decreases len,
{
    if len <= 0 || start < 0 || start >= out.len() {
        out
    } else {
        copy_expand(out.push(out[start]), start + 1, len - 1)
    }
}

/// What decoding one token appends to the output: the copied match region if
/// the back-reference is usable, then the literal. A reference reaching
/// before the start of the output adds only the literal; the encoder never
/// produces one.
pub open spec fn spec_decode_token(out: Seq<u8>, t: Token) -> Seq<u8> {
    if t.offset == 0 || t.match_length == 0 || t.offset > out.len() {
        out.push(t.next_char)
    } else {
        copy_expand(out, out.len() - t.offset, t.match_length as int).push(t.next_char)
    }
}

/// The token the decoder reads at bit position `pos`, under the configured
/// widths; reads past the end assemble zero bits.
pub open spec fn parsed_token(bits: Seq<bool>, pos: int, ob: int, lb: int) -> Token {
    Token {
        offset: read_val_at(bits, pos, ob) as usize,
        match_length: read_val_at(bits, pos + ob, lb) as usize,
        next_char: read_val_at(bits, pos + ob + lb, 8) as u8,
    }
}

/// The decoder's output after reading tokens from `pos` on: one fixed-width
/// token per step while a whole token remains.
pub open spec fn spec_lz_expand(bits: Seq<bool>, pos: int, ob: int, lb: int, out: Seq<u8>) -> Seq<
    u8,
>
    decreases bits.len() - pos,
{
    if pos < 0 || ob < 0 || lb < 0 || pos + ob + lb + 8 > bits.len() {
        out
    } else {
        spec_lz_expand(
            bits,
            pos + ob + lb + 8,
            ob,
            lb,
            spec_decode_token(out, parsed_token(bits, pos, ob, lb)),
        )
    }
}

/// What `decode` returns for a byte buffer: the widths from the 7-bit header,
/// then every whole token expanded in order.
pub open spec fn spec_lz_decode(input: Seq<u8>) -> Seq<u8> {
    let bits = stream_bits(input);
    let ob = read_val_at(bits, 0, 4);
    let lb = read_val_at(bits, 4, 3);
    spec_lz_expand(bits, 7, ob, lb, Seq::empty())
}

/// An encoding request: the payload and the two token widths.
pub struct EncodeRequest {
    pub filename: String,
    pub file_data: Vec<u8>,
    pub offset_bits: u8,
    pub length_bits: u8,
}

/// A decoding request: the encoded payload.
pub struct DecodeRequest {
    pub filename: String,
    pub file_data: Vec<u8>,
}

/// What a decoding run reports back.
pub struct DecodeResponse {
    pub decoded_filename: String,
    pub decoded_data: Vec<u8>,
    pub original_compressed_size: usize,
    pub decompressed_size: usize,
}

/// The length of the run of equal bytes between the window at `p` and the
/// window at `lab`, capped at `cap` and stopping at the window's end.
pub open spec fn match_len_at(w: Seq<u8>, lab: int, p: int, cap: int) -> int
    decreases cap,
{
    if cap <= 0 || p < 0 || p >= w.len() || lab < 0 || lab >= w.len() || w[p] != w[lab] {
        0
    } else {
        1 + match_len_at(w, lab + 1, p + 1, cap - 1)
    }
}

/// A run stopped by the window's end, an exhausted cap or a mismatch has
/// length zero.
proof fn lemma_match_len_zero(w: Seq<u8>, lab: int, p: int, cap: int)
    requires
        cap <= 0 || p < 0 || p >= w.len() || lab < 0 || lab >= w.len() || w[p] != w[lab],
    ensures
        match_len_at(w, lab, p, cap) == 0,
{
}

/// A matching byte extends the run by one.
proof fn lemma_match_len_step(w: Seq<u8>, lab: int, p: int, cap: int)
    requires
        cap > 0,
        0 <= p < w.len(),
        0 <= lab < w.len(),
        w[p] == w[lab],
    ensures
        match_len_at(w, lab, p, cap) == 1 + match_len_at(w, lab + 1, p + 1, cap - 1),
{
}

/// The LZ77 coder state: the configured token widths and their value caps,
/// the sliding window with the split between search buffer and lookahead
/// buffer, and the tokens of the last encoding run.
pub struct LZ77 {
    offset_bits: u8,
    length_bits: u8,
    max_offset: usize,
    max_length: usize,
    window: Vec<u8>,
    lab_start_index: usize,
    tokens: Vec<Token>,
}

impl LZ77 {
    pub closed spec fn spec_offset_bits(self) -> int {
        self.offset_bits as int
    }

    pub closed spec fn spec_length_bits(self) -> int {
        self.length_bits as int
    }

    pub closed spec fn spec_max_offset(self) -> int {
        self.max_offset as int
    }

    pub closed spec fn spec_max_length(self) -> int {
        self.max_length as int
    }

    pub closed spec fn spec_tokens(self) -> Seq<Token> {
        self.tokens@
    }

    /// The cap on one match: the length field's cap, or one short of the
    /// lookahead so a literal always remains.
    pub closed spec fn spec_match_cap(self) -> int {
        let lookahead = self.window@.len() - self.lab_start_index;
        if self.spec_max_length() <= lookahead - 1 {
            self.spec_max_length()
        } else {
            lookahead - 1
        }
    }

    pub closed spec fn inv(self) -> bool {
        &&& self.offset_bits <= 15
        &&& self.length_bits <= 7
        &&& self.max_offset as int == (1usize << self.offset_bits) - 1
        &&& self.max_length as int == (1usize << self.length_bits) - 1
        &&& self.lab_start_index <= self.window@.len()
        &&& self.max_offset <= 32767
        &&& self.max_length <= 127
    }

    /// Configures the coder. The widths must fit the stream header: at most
    /// four bits of offset width and three bits of length width; an absent
    /// width means zero.
    pub fn new(offset_bits: Option<u8>, length_bits: Option<u8>) -> (r: Self)
        requires
            offset_bits matches Some(b) ==> b <= 15,
            length_bits matches Some(b) ==> b <= 7,
        ensures
            r.inv(),
            r.spec_offset_bits() == (match offset_bits {
                Some(b) => b as int,
                None => 0int,
            }),
            r.spec_length_bits() == (match length_bits {
                Some(b) => b as int,
                None => 0int,
            }),
            r.spec_tokens() == Seq::<Token>::empty(),
    {
        let ob: u8 = match offset_bits {
            Some(b) => b,
            None => 0,
        };
        let lb: u8 = match length_bits {
            Some(b) => b,
            None => 0,
        };
        let mut max_offset: usize = 0;
        let mut max_length: usize = 0;
        proof {
            lemma_small_shift_bounds(ob);
            lemma_small_shift_bounds(lb);
        }
        if ob > 0 {
            max_offset = (1usize << ob) - 1;
        }
        if lb > 0 {
            max_length = (1usize << lb) - 1;
        }
        proof {
            assert((1usize << 0u8) == 1) by (bit_vector);
        }
        let r = Self {
            offset_bits: ob,
            length_bits: lb,
            max_offset,
            max_length,
            window: Vec::new(),
            lab_start_index: 0,
            tokens: Vec::new(),
        };
        r
    }

    /// The search buffer: everything before the lookahead split.
    fn get_search_buffer(&self) -> (r: &[u8])
        requires
            self.inv(),
        ensures
            r@ == self.window@.subrange(0, self.lab_start_index as int),
    {
        vstd::slice::slice_subrange(self.window.as_slice(), 0, self.lab_start_index)
    }

    /// The lookahead buffer: everything from the split on.
    fn get_lookahead_buffer(&self) -> (r: &[u8])
        requires
            self.inv(),
        ensures
            r@ == self.window@.subrange(self.lab_start_index as int, self.window@.len() as int),
    {
        vstd::slice::slice_subrange(self.window.as_slice(), self.lab_start_index, self.window.len())
    }

    /// Writes the two header fields announcing the token widths.
    fn write_header(&self, writer: &mut BitWriter)
        requires
            self.inv(),
            old(writer).inv(),
        ensures
            final(writer).inv(),
            final(writer).bits() == old(writer).bits() + lz_header_bits(
                self.spec_offset_bits(),
                self.spec_length_bits(),
            ),
    {
        writer.write_n_bits(4, self.offset_bits as u32);
        writer.write_n_bits(3, self.length_bits as u32);
        proof {
            assert(writer.bits() =~= old(writer).bits() + lz_header_bits(
                self.spec_offset_bits(),
                self.spec_length_bits(),
            ));
        }
    }

    /// Fills the window with the first lookahead load and returns how many
    /// bytes were taken.
    fn initialize_window(&mut self, data: &[u8]) -> (bytes_read: usize)
        requires
            old(self).inv(),
        ensures
            final(self).inv(),
            final(self).offset_bits == old(self).offset_bits,
            final(self).length_bits == old(self).length_bits,
            final(self).max_offset == old(self).max_offset,
            final(self).max_length == old(self).max_length,
            final(self).tokens@ == old(self).tokens@,
            final(self).lab_start_index == 0,
            bytes_read == if old(self).spec_max_length() <= data@.len() {
                old(self).spec_max_length()
            } else {
                data@.len() as int
            },
            final(self).window@ == data@.subrange(0, bytes_read as int),
    {
        let bytes_to_read: usize = if self.max_length <= data.len() {
            self.max_length
        } else {
            data.len()
        };
        self.lab_start_index = 0;
        self.window = Vec::new();
        let mut i: usize = 0;
        while i < bytes_to_read
            invariant
                self.inv(),
                self.offset_bits == old(self).offset_bits,
                self.length_bits == old(self).length_bits,
                self.max_offset == old(self).max_offset,
                self.max_length == old(self).max_length,
                self.tokens@ == old(self).tokens@,
                self.lab_start_index == 0,
                i <= bytes_to_read,
                bytes_to_read <= data@.len(),
                self.window@ == data@.subrange(0, i as int),
            decreases bytes_to_read - i,
        {
            self.window.push(data[i]);
            proof {
                assert(self.window@ =~= data@.subrange(0, i as int + 1));
            }
            i = i + 1;
        }
        bytes_to_read
    }

    /// Scans the whole search buffer for the longest match of the lookahead
    /// prefix, capped one short of the lookahead and at the length cap, and
    /// reports the offset of the leftmost position attaining the maximal
    /// length, with that length.
    fn find_longest_match(&self) -> (r: (usize, usize))
        requires
            self.inv(),
        ensures
            r.1 <= self.spec_max_length(),
            self.lab_start_index + r.1 <= self.window@.len(),
            self.lab_start_index < self.window@.len() ==> self.lab_start_index + r.1
                < self.window@.len(),
            r.0 <= self.lab_start_index,
            r.1 > 0 ==> r.0 >= 1,
            forall|i: int|
                0 <= i < r.1 ==> #[trigger] self.window@[self.lab_start_index - r.0 + i]
                    == self.window@[self.lab_start_index + i],
            self.lab_start_index == 0 || self.lab_start_index == self.window@.len() ==> r == (
                0usize,
                0usize,
            ),
            0 < self.lab_start_index < self.window@.len() ==> {
                &&& forall|p: int|
                    0 <= p < self.lab_start_index ==> #[trigger] match_len_at(
                        self.window@,
                        self.lab_start_index as int,
                        p,
                        self.spec_match_cap(),
                    ) <= r.1
                &&& (r.1 > 0 ==> match_len_at(
                    self.window@,
                    self.lab_start_index as int,
                    self.lab_start_index - r.0,
                    self.spec_match_cap(),
                ) == r.1 && forall|p: int|
                    0 <= p < self.lab_start_index - r.0 ==> #[trigger] match_len_at(
                        self.window@,
                        self.lab_start_index as int,
                        p,
                        self.spec_match_cap(),
                    ) < r.1)
                &&& (r.1 == 0 ==> r.0 == 0)
            },
    {
        let search_len: usize = self.lab_start_index;
        let lookahead_len: usize = self.window.len() - self.lab_start_index;

        if search_len == 0 || lookahead_len == 0 {
            return (0, 0);
        }

        let mut best_match_offset: usize = 0;
        let mut best_match_length: usize = 0;

        let max_match_length: usize = if self.max_length <= lookahead_len - 1 {
            self.max_length
        } else {
            lookahead_len - 1
        };
        let ghost w = self.window@;
        let ghost lab = self.lab_start_index as int;
        let ghost cap = self.spec_match_cap();
        proof {
            assert(cap == max_match_length);
        }

        let mut search_buffer_pos: usize = 0;
        while search_buffer_pos < search_len
            invariant
                self.inv(),
                w == self.window@,
                lab == self.lab_start_index as int,
                cap == max_match_length,
                search_len == self.lab_start_index,
                lookahead_len == self.window@.len() - self.lab_start_index,
                lookahead_len >= 1,
                max_match_length <= self.spec_max_length(),
                max_match_length < lookahead_len,
                search_buffer_pos <= search_len,
                best_match_length <= max_match_length,
                best_match_offset <= self.lab_start_index,
                best_match_length > 0 ==> best_match_offset >= 1,
                best_match_length == 0 ==> best_match_offset == 0,
                forall|i: int|
                    0 <= i < best_match_length ==> #[trigger] self.window@[self.lab_start_index
                        - best_match_offset + i] == self.window@[self.lab_start_index + i],
                forall|p: int|
                    0 <= p < search_buffer_pos ==> #[trigger] match_len_at(w, lab, p, cap)
                        <= best_match_length,
                best_match_length > 0 ==> match_len_at(w, lab, lab - best_match_offset, cap)
                    == best_match_length,
                best_match_length > 0 ==> forall|p: int|
                    0 <= p < lab - best_match_offset ==> #[trigger] match_len_at(w, lab, p, cap)
                        < best_match_length,
            decreases search_len - search_buffer_pos,
        {
            let mut match_length: usize = 0;
            let mut i: usize = 0;
            loop
                invariant_except_break
                    self.inv(),
                    w == self.window@,
                    lab == self.lab_start_index as int,
                    cap == max_match_length,
                    search_len == self.lab_start_index,
                    search_buffer_pos < search_len,
                    max_match_length < self.window@.len() - self.lab_start_index,
                    i <= max_match_length,
                    match_length == i,
                    forall|j: int|
                        0 <= j < match_length ==> #[trigger] self.window@[search_buffer_pos + j]
                            == self.window@[self.lab_start_index + j],
                    match_len_at(w, lab, search_buffer_pos as int, cap) == match_length
                        + match_len_at(
                        w,
                        lab + match_length,
                        search_buffer_pos + match_length,
                        cap - match_length,
                    ),
                ensures
                    match_length <= max_match_length,
                    forall|j: int|
                        0 <= j < match_length ==> #[trigger] self.window@[search_buffer_pos + j]
                            == self.window@[self.lab_start_index + j],
                    match_len_at(w, lab, search_buffer_pos as int, cap) == match_length,
                decreases max_match_length - i,
            {
                if i >= max_match_length {
                    proof {
                        lemma_match_len_zero(
                            w,
                            lab + match_length,
                            search_buffer_pos + match_length,
                            cap - match_length,
                        );
                    }
                    break ;
                }
                if self.window.len() - search_buffer_pos <= i {
                    proof {
                        assert(search_buffer_pos + match_length >= w.len());
                        lemma_match_len_zero(
                            w,
                            lab + match_length,
                            search_buffer_pos + match_length,
                            cap - match_length,
                        );
                    }
                    break ;
                }
                let window_pos: usize = search_buffer_pos + i;
                if self.window[window_pos] != self.window[self.lab_start_index + i] {
                    proof {
                        lemma_match_len_zero(
                            w,
                            lab + match_length,
                            search_buffer_pos + match_length,
                            cap - match_length,
                        );
                    }
                    break ;
                }
                proof {
                    assert(lab + i < w.len());
                    lemma_match_len_step(
                        w,
                        lab + match_length,
                        search_buffer_pos + match_length,
                        cap - match_length,
                    );
                }
                match_length = match_length + 1;
                i = i + 1;
            }

            if best_match_length < match_length {
                best_match_length = match_length;
                best_match_offset = self.lab_start_index - search_buffer_pos;
            }
            search_buffer_pos = search_buffer_pos + 1;
        }

        (best_match_offset, best_match_length)
    }

    /// Emits one token at the configured widths.
    fn emit_token(&self, writer: &mut BitWriter, offset: usize, length: usize, next_char: u8)
        requires
            self.inv(),
            old(writer).inv(),
            offset <= u32::MAX,
            length <= u32::MAX,
        ensures
            final(writer).inv(),
            final(writer).bits() == old(writer).bits() + token_bits(
                Token { offset, match_length: length, next_char },
                self.spec_offset_bits(),
                self.spec_length_bits(),
            ),
    {
        writer.write_n_bits(self.offset_bits as u32, offset as u32);
        writer.write_n_bits(self.length_bits as u32, length as u32);
        writer.write_n_bits(8, next_char as u32);
        proof {
            assert(final(writer).bits() =~= old(writer).bits() + token_bits(
                Token { offset, match_length: length, next_char },
                self.spec_offset_bits(),
                self.spec_length_bits(),
            ));
        }
    }

    /// Consumes `n` symbols: moves the lookahead split forward, refills the
    /// window from the input, and drops what has slid out of the offset
    /// range.
    fn slide_window(&mut self, n: usize, input: &[u8], input_position: &mut usize)
        requires
            old(self).inv(),
            old(self).lab_start_index + n <= old(self).window@.len(),
            *old(input_position) <= input@.len(),
            *old(input_position) >= old(self).window@.len(),
            old(self).window@ == input@.subrange(
                *old(input_position) - old(self).window@.len(),
                *old(input_position) as int,
            ),
        ensures
            *final(input_position) >= final(self).window@.len(),
            final(self).window@ == input@.subrange(
                *final(input_position) - final(self).window@.len(),
                *final(input_position) as int,
            ),
            final(self).inv(),
            final(self).offset_bits == old(self).offset_bits,
            final(self).length_bits == old(self).length_bits,
            final(self).max_offset == old(self).max_offset,
            final(self).max_length == old(self).max_length,
            final(self).tokens@ == old(self).tokens@,
            *final(input_position) <= input@.len(),
            *final(input_position) - (final(self).window@.len() - final(self).lab_start_index)
                == *old(input_position) - (old(self).window@.len() - old(self).lab_start_index)
                + n,
            *final(input_position) == if input@.len() - *old(input_position) <= n {
                input@.len() as int
            } else {
                *old(input_position) + n
            },
            final(self).lab_start_index <= final(self).max_offset,
    {
        let window_len: usize = self.window.len();
        proof {
            assert(old(self).lab_start_index + n <= window_len);
        }
        self.lab_start_index = self.lab_start_index + n;

        let remaining: usize = input.len() - *input_position;
        let bytes_to_read: usize = if remaining <= n {
            remaining
        } else {
            n
        };

        let mut i: usize = 0;
        while i < bytes_to_read
            invariant
                self.inv(),
                self.offset_bits == old(self).offset_bits,
                self.length_bits == old(self).length_bits,
                self.max_offset == old(self).max_offset,
                self.max_length == old(self).max_length,
                self.tokens@ == old(self).tokens@,
                i <= bytes_to_read,
                *input_position == *old(input_position),
                *input_position + bytes_to_read <= input@.len(),
                *input_position >= old(self).window@.len(),
                input@.len() <= usize::MAX,
                self.window@.len() == old(self).window@.len() + i,
                self.window@ == input@.subrange(
                    *input_position - old(self).window@.len(),
                    *input_position + i,
                ),
                self.lab_start_index == old(self).lab_start_index + n,
                self.lab_start_index <= self.window@.len(),
            decreases bytes_to_read - i,
        {
            self.window.push(input[*input_position + i]);
            proof {
                assert(self.window@ =~= input@.subrange(
                    *input_position - old(self).window@.len(),
                    *input_position + i + 1,
                ));
            }
            i = i + 1;
        }
        *input_position = *input_position + bytes_to_read;
        proof {
            assert(self.window@ == input@.subrange(
                *input_position - self.window@.len(),
                *input_position as int,
            ));
        }

        if self.lab_start_index > self.max_offset {
            let excess: usize = self.lab_start_index - self.max_offset;
            let mut trimmed: Vec<u8> = Vec::new();
            let mut j: usize = excess;
            while j < self.window.len()
                invariant
                    excess <= j <= self.window@.len(),
                    trimmed@ == self.window@.subrange(excess as int, j as int),
                decreases self.window@.len() - j,
            {
                trimmed.push(self.window[j]);
                proof {
                    assert(trimmed@ =~= self.window@.subrange(excess as int, j as int + 1));
                }
                j = j + 1;
            }
            proof {
                assert(trimmed@ =~= self.window@.subrange(
                    excess as int,
                    self.window@.len() as int,
                ));
                assert(trimmed@ =~= input@.subrange(
                    *input_position - self.window@.len() + excess,
                    *input_position as int,
                ));
            }
            self.window = trimmed;
            self.lab_start_index = self.max_offset;
        }
    }

    /// Tokenizes the input greedily and returns the padded token stream. The
    /// tokens of the run are retained; together they cover the input exactly,
    /// one match and one literal each, and describe it faithfully: every
    /// match repeats input bytes at its back-reference and every literal is
    /// the input byte behind its match.
    pub fn encode(&mut self, input_data: &[u8]) -> (r: Vec<u8>)
        requires
            old(self).inv(),
        ensures
            final(self).inv(),
            final(self).spec_offset_bits() == old(self).spec_offset_bits(),
            final(self).spec_length_bits() == old(self).spec_length_bits(),
            stream_bits(r@) == {
                let body = lz_header_bits(
                    old(self).spec_offset_bits(),
                    old(self).spec_length_bits(),
                ) + tokens_bits(
                    final(self).spec_tokens(),
                    old(self).spec_offset_bits(),
                    old(self).spec_length_bits(),
                    final(self).spec_tokens().len() as int,
                ) + zero_bits(7);
                body + zero_bits(padding_of(body.len() as int))
            },
            old(self).spec_max_length() >= 1 ==> tokens_coverage(
                final(self).spec_tokens(),
                final(self).spec_tokens().len() as int,
            ) == input_data@.len(),
            tokens_reproduce(
                final(self).spec_tokens(),
                input_data@,
                final(self).spec_tokens().len() as int,
            ),
            forall|i: int|
                0 <= i < final(self).spec_tokens().len() ==> (#[trigger] final(self).spec_tokens()[i]).offset
                    <= old(self).spec_max_offset()
                    && final(self).spec_tokens()[i].match_length <= old(self).spec_max_length(),
    {
        self.tokens = Vec::new();
        let mut writer = BitWriter::new();
        let ghost ob = self.spec_offset_bits();
        let ghost lb = self.spec_length_bits();

        self.write_header(&mut writer);

        let bytes_read: usize = self.initialize_window(input_data);
        let mut input_position: usize = bytes_read;
        proof {
            assert(self.window@ == input_data@.subrange(
                input_position - self.window@.len(),
                input_position as int,
            ));
        }

        while self.window.len() - self.lab_start_index > 0
            invariant
                self.inv(),
                self.spec_offset_bits() == ob,
                self.spec_length_bits() == lb,
                writer.inv(),
                input_position <= input_data@.len(),
                input_position >= self.window@.len(),
                self.window@ == input_data@.subrange(
                    input_position - self.window@.len(),
                    input_position as int,
                ),
                tokens_reproduce(self.tokens@, input_data@, self.tokens@.len() as int),
                input_position - (self.window@.len() - self.lab_start_index) == tokens_coverage(
                    self.tokens@,
                    self.tokens@.len() as int,
                ),
                self.spec_max_length() == 0 || input_position == input_data@.len()
                    || self.window@.len() - self.lab_start_index > 0,
                self.lab_start_index <= self.spec_max_offset(),
                writer.bits() == lz_header_bits(ob, lb) + tokens_bits(
                    self.tokens@,
                    ob,
                    lb,
                    self.tokens@.len() as int,
                ),
                forall|i: int|
                    0 <= i < self.tokens@.len() ==> (#[trigger] self.tokens@[i]).offset
                        <= self.spec_max_offset() && self.tokens@[i].match_length
                        <= self.spec_max_length(),
            decreases input_data@.len() - input_position, self.window@.len()
                - self.lab_start_index,
        {
            let (best_match_offset, best_match_length) = self.find_longest_match();
            let next_char: u8 = self.window[self.lab_start_index + best_match_length];

            let ghost before_tokens = self.tokens@;
            let t = Token::new(best_match_offset, best_match_length, next_char);
            proof {
                lemma_tokens_bits_push(before_tokens, t, ob, lb, before_tokens.len() as int);
                lemma_coverage_push(before_tokens, t, before_tokens.len() as int);
                lemma_reproduce_push(before_tokens, t, input_data@, before_tokens.len() as int);
            }
            self.tokens.push(t);
            proof {
                let input = input_data@;
                let g = tokens_coverage(before_tokens, before_tokens.len() as int);
                let win_start = input_position - self.window@.len();
                assert(g == win_start + self.lab_start_index);
                assert forall|j: int|
                    0 <= j < t.match_length implies input[g - t.offset + j] == #[trigger] input[g
                    + j] by {
                    assert(self.window@[self.lab_start_index - t.offset + j] == input[win_start
                        + (self.lab_start_index - t.offset + j)]);
                    assert(self.window@[self.lab_start_index + j] == input[win_start + (
                    self.lab_start_index + j)]);
                };
                assert(next_char == self.window@[self.lab_start_index + t.match_length]);
                assert(input[g + t.match_length] == self.window@[self.lab_start_index
                    + t.match_length]);
                assert(g + t.match_length < input.len());
                assert(tokens_reproduce(self.tokens@, input, self.tokens@.len() as int));
            }

            self.emit_token(&mut writer, best_match_offset, best_match_length, next_char);
            self.slide_window(best_match_length + 1, input_data, &mut input_position);
            proof {
                assert(writer.bits() =~= lz_header_bits(ob, lb) + tokens_bits(
                    self.tokens@,
                    ob,
                    lb,
                    self.tokens@.len() as int,
                ));
            }
        }

        writer.write_n_bits(7, 0);
        let ghost body = lz_header_bits(ob, lb) + tokens_bits(
            self.tokens@,
            ob,
            lb,
            self.tokens@.len() as int,
        ) + zero_bits(7);
        proof {
            assert(bits_of_value(0u32, 7) =~= zero_bits(7)) by {
                crate::bit_io::lemma_bits_of_value_len(0u32, 7);
                assert forall|i: int| 0 <= i < 7 implies bits_of_value(0u32, 7)[i] == false by {
                    crate::bit_io::lemma_bits_of_value_index(0u32, 7, i);
                    let k = (6 - i) as u32;
                    assert((0u32 >> k) & 1 == 0) by (bit_vector);
                };
            };
            assert(writer.bits() =~= body);
        }
        writer.finish()
    }

    /// Decodes a token stream: reads the widths from the header, then expands
    /// one whole token after another until the stream runs out.
    pub fn decode(&mut self, encoded_data: &[u8]) -> (r: Vec<u8>)
        requires
            old(self).inv(),
        ensures
            final(self).inv(),
            r@ == spec_lz_decode(encoded_data@),
    {
        let ghost bits = stream_bits(encoded_data@);
        let mut reader = BitReader::new(encoded_data);
        let mut output: Vec<u8> = Vec::new();

        let (offset_bits, length_bits) = Self::read_header(&mut reader);
        proof {
            assert(offset_bits as int == read_val_at(bits, 0, 4));
            assert(length_bits as int == read_val_at(bits, 4, 3));
        }

        self.offset_bits = offset_bits;
        self.length_bits = length_bits;
        proof {
            lemma_small_shift_bounds(offset_bits);
            lemma_small_shift_bounds(length_bits);
        }
        self.max_offset = (1usize << self.offset_bits) - 1;
        self.max_length = (1usize << self.length_bits) - 1;
        self.lab_start_index = 0;
        self.window = Vec::new();

        let ghost ob = offset_bits as int;
        let ghost lb = length_bits as int;

        loop
            invariant
                self.inv(),
                reader.inv(),
                reader.bits() == bits,
                0 <= reader.pos() <= bits.len(),
                reader.pos() >= 7 || reader.pos() == bits.len(),
                ob == read_val_at(bits, 0, 4),
                lb == read_val_at(bits, 4, 3),
                self.offset_bits as int == ob,
                self.length_bits as int == lb,
                spec_lz_expand(bits, reader.pos(), ob, lb, output@) == spec_lz_expand(
                    bits,
                    7,
                    ob,
                    lb,
                    Seq::empty(),
                ) || (reader.pos() == bits.len() && bits.len() < 7 && output@ == Seq::<
                    u8,
                >::empty()),
            ensures
                output@ == spec_lz_expand(bits, 7, ob, lb, Seq::empty()),
            decreases bits.len() - reader.pos(),
        {
            let ghost pos0 = reader.pos();
            let token = match self.read_token(&mut reader) {
                Some(t) => t,
                None => {
                    proof {
                        if pos0 >= 7 {
                            assert(spec_lz_expand(bits, pos0, ob, lb, output@) == output@);
                        } else {
                            assert(bits.len() < 7);
                            assert(spec_lz_expand(bits, 7, ob, lb, Seq::<u8>::empty())
                                =~= Seq::<u8>::empty());
                        }
                    }
                    break ;
                },
            };
            proof {
                assert(spec_lz_expand(bits, pos0, ob, lb, output@) == spec_lz_expand(
                    bits,
                    pos0 + ob + lb + 8,
                    ob,
                    lb,
                    spec_decode_token(output@, parsed_token(bits, pos0, ob, lb)),
                ));
            }
            self.decode_token(&token, &mut output);
        }

        output
    }

    /// Reads the two header fields; a truncated header reads as zero widths.
    fn read_header(reader: &mut BitReader) -> (r: (u8, u8))
        requires
            old(reader).inv(),
            old(reader).pos() == 0,
        ensures
            final(reader).inv(),
            final(reader).bits() == old(reader).bits(),
            r.0 as int == read_val_at(old(reader).bits(), 0, 4),
            r.1 as int == read_val_at(old(reader).bits(), 4, 3),
            r.0 <= 15,
            r.1 <= 7,
            final(reader).pos() == if old(reader).bits().len() >= 7 {
                7int
            } else {
                old(reader).bits().len() as int
            },
    {
        let ghost bits = reader.bits();
        let offset_bits: u8 = match reader.read_n_bits(4) {
            Some(value) => value as u8,
            None => 0,
        };
        proof {
            if bits.len() >= 4 {
                crate::bit_io::lemma_value_of_bits_bound(bits.subrange(0, 4));
                assert((1u64 << 4u32) == 16) by (bit_vector);
            }
        }
        let length_bits: u8 = match reader.read_n_bits(3) {
            Some(value) => value as u8,
            None => 0,
        };
        proof {
            if bits.len() >= 7 {
                crate::bit_io::lemma_value_of_bits_bound(bits.subrange(4, 7));
                assert((1u64 << 3u32) == 8) by (bit_vector);
            }
        }
        (offset_bits, length_bits)
    }

    /// Reads one whole token, or reports that no whole token remains.
    fn read_token(&self, reader: &mut BitReader) -> (r: Option<Token>)
        requires
            self.inv(),
            old(reader).inv(),
        ensures
            final(reader).inv(),
            final(reader).bits() == old(reader).bits(),
            match r {
                Some(t) => {
                    &&& old(reader).pos() + self.spec_offset_bits() + self.spec_length_bits() + 8
                        <= old(reader).bits().len()
                    &&& t == parsed_token(
                        old(reader).bits(),
                        old(reader).pos(),
                        self.spec_offset_bits(),
                        self.spec_length_bits(),
                    )
                    &&& final(reader).pos() == old(reader).pos() + self.spec_offset_bits()
                        + self.spec_length_bits() + 8
                },
                None => {
                    &&& old(reader).pos() + self.spec_offset_bits() + self.spec_length_bits() + 8
                        > old(reader).bits().len()
                    &&& final(reader).pos() == old(reader).bits().len()
                },
            },
    {
        proof {
            reader.lemma_pos_bounds();
        }
        let offset_raw: u32 = match reader.read_n_bits(self.offset_bits as u32) {
            Some(v) => v,
            None => {
                return None;
            },
        };
        let length_raw: u32 = match reader.read_n_bits(self.length_bits as u32) {
            Some(v) => v,
            None => {
                return None;
            },
        };
        let ch_raw: u32 = match reader.read_n_bits(8) {
            Some(v) => v,
            None => {
                return None;
            },
        };
        Some(Token::new(offset_raw as usize, length_raw as usize, ch_raw as u8))
    }

    /// Expands one token into the output: copies the match region byte by
    /// byte (a match may overlap what it writes), then appends the literal. A
    /// back-reference reaching before the output's start appends only the
    /// literal.
    fn decode_token(&self, token: &Token, output: &mut Vec<u8>)
        ensures
            final(output)@ == spec_decode_token(old(output)@, *token),
    {
        if token.offset == 0 || token.match_length == 0 || token.offset > output.len() {
            output.push(token.next_char);
            return ;
        }

        let ghost match_start_position = output@.len() - token.offset as int;

        let mut i: usize = 0;
        while i < token.match_length
            invariant
                i <= token.match_length,
                token.offset >= 1,
                token.offset <= old(output)@.len(),
                match_start_position == old(output)@.len() - token.offset,
                output@.len() == old(output)@.len() + i,
                spec_decode_token(old(output)@, *token) == copy_expand(
                    output@,
                    match_start_position + i,
                    token.match_length - i,
                ).push(token.next_char),
            decreases token.match_length - i,
        {
            let idx: usize = output.len() - token.offset;
            let symbol: u8 = output[idx];
            proof {
                assert(idx as int == match_start_position + i);
                assert(copy_expand(output@, match_start_position + i, token.match_length - i)
                    == copy_expand(
                    output@.push(output@[match_start_position + i]),
                    match_start_position + i + 1,
                    token.match_length - i - 1,
                ));
            }
            output.push(symbol);
            i = i + 1;
        }

        output.push(token.next_char);
    }

    /// The tokens of the last encoding run.
    pub fn get_tokens(&self) -> (r: Vec<Token>)
        ensures
            r@ == self.spec_tokens(),
    {
        let mut r: Vec<Token> = Vec::new();
        let mut i: usize = 0;
        while i < self.tokens.len()
            invariant
                i <= self.tokens@.len(),
                r@ == self.tokens@.subrange(0, i as int),
            decreases self.tokens@.len() - i,
        {
            let t = &self.tokens[i];
            r.push(Token::new(t.offset, t.match_length, t.next_char));
            proof {
                assert(r@ =~= self.tokens@.subrange(0, i as int + 1));
            }
            i = i + 1;
        }
        proof {
            assert(self.tokens@.subrange(0, self.tokens@.len() as int) =~= self.tokens@);
        }
        r
    }
}

/// Whether the name ends in the coder's file extension.
pub open spec fn has_lz_extension(s: Seq<char>) -> bool {
    s.len() >= 5 && s.subrange(s.len() - 5, s.len() as int) == seq!['.', 'l', 'z', '7', '7']
}

/// The last position where the width marker `.o` begins at or before `k`.
pub open spec fn rfind_width_marker(s: Seq<char>, k: int) -> Option<int>
    decreases k + 1,
{
    if k < 0 {
        Option::None
    } else if k + 1 < s.len() && s[k] == '.' && s[k + 1] == 'o' {
        Option::Some(k)
    } else {
        rfind_width_marker(s, k - 1)
    }
}

/// Recovers the original file name from an encoded one: with the coder's
/// extension present, everything before the last width marker falls away with
/// the extension; otherwise only a trailing extension is stripped.
pub fn extract_original_filename(encoded_filename: &str) -> (r: String)
    ensures
        r@ == ({
            let s = encoded_filename@;
            if has_lz_extension(s) && rfind_width_marker(s, s.len() - 2) is Some {
                s.subrange(0, rfind_width_marker(s, s.len() - 2).unwrap())
            } else if has_lz_extension(s) {
                s.subrange(0, s.len() - 5)
            } else {
                s
            }
        }),
{
    let len: usize = encoded_filename.unicode_len();
    let ghost s = encoded_filename@;

    let mut ends_lz: bool = len >= 5;
    if len >= 5 {
        ends_lz = encoded_filename.get_char(len - 5) == '.' && encoded_filename.get_char(len - 4)
            == 'l' && encoded_filename.get_char(len - 3) == 'z' && encoded_filename.get_char(
            len - 2,
        ) == '7' && encoded_filename.get_char(len - 1) == '7';
        proof {
            assert(ends_lz == has_lz_extension(s)) by {
                if ends_lz {
                    assert(s.subrange(s.len() - 5, s.len() as int) =~= seq![
                        '.',
                        'l',
                        'z',
                        '7',
                        '7',
                    ]);
                } else {
                    if has_lz_extension(s) {
                        assert(s.subrange(s.len() - 5, s.len() as int)[0] == s[s.len() - 5]);
                        assert(s.subrange(s.len() - 5, s.len() as int)[1] == s[s.len() - 4]);
                        assert(s.subrange(s.len() - 5, s.len() as int)[2] == s[s.len() - 3]);
                        assert(s.subrange(s.len() - 5, s.len() as int)[3] == s[s.len() - 2]);
                        assert(s.subrange(s.len() - 5, s.len() as int)[4] == s[s.len() - 1]);
                    }
                }
            };
        }
    } else {
        proof {
            assert(!has_lz_extension(s));
        }
    }

    if ends_lz {
        // Scan backward for the last `.o` width marker.
        let mut k: usize = len - 1;
        loop
            invariant
                s == encoded_filename@,
                len == s.len(),
                len >= 5,
                has_lz_extension(s),
                k <= len - 1,
                rfind_width_marker(s, s.len() - 2) == rfind_width_marker(s, k as int),
            ensures
                s == encoded_filename@,
                len == s.len(),
                len >= 5,
                has_lz_extension(s),
                rfind_width_marker(s, s.len() - 2) is None,
            decreases k,
        {
            if k + 1 < len && encoded_filename.get_char(k) == '.' && encoded_filename.get_char(
                k + 1,
            ) == 'o' {
                proof {
                    assert(rfind_width_marker(s, k as int) == Some(k as int));
                }
                let sub = encoded_filename.substring_char(0, k);
                return String::from_str(sub);
            }
            proof {
                assert(rfind_width_marker(s, k as int) == rfind_width_marker(s, k as int - 1));
            }
            if k == 0 {
                break ;
            }
            k = k - 1;
        }
        let sub = encoded_filename.substring_char(0, len - 5);
        String::from_str(sub)
    } else {
        String::from_str(encoded_filename)
    }
}

/// Appending a token leaves the bits of the earlier ones unchanged.
proof fn lemma_tokens_bits_push(ts: Seq<Token>, t: Token, ob: int, lb: int, k: int)
    requires
        k <= ts.len(),
    ensures
        tokens_bits(ts.push(t), ob, lb, k) == tokens_bits(ts, ob, lb, k),
    decreases k,
{
    if k > 0 {
        lemma_tokens_bits_push(ts, t, ob, lb, k - 1);
    }
}

/// Appending a token leaves the faithfulness of the earlier ones unchanged.
proof fn lemma_reproduce_push(ts: Seq<Token>, t: Token, input: Seq<u8>, k: int)
    requires
        k <= ts.len(),
    ensures
        tokens_reproduce(ts.push(t), input, k) == tokens_reproduce(ts, input, k),
    decreases k,
{
    if k > 0 {
        lemma_reproduce_push(ts, t, input, k - 1);
        lemma_coverage_push(ts, t, k - 1);
    }
}

/// Appending a token leaves the coverage of the earlier ones unchanged.
proof fn lemma_coverage_push(ts: Seq<Token>, t: Token, k: int)
    requires
        k <= ts.len(),
    ensures
        tokens_coverage(ts.push(t), k) == tokens_coverage(ts, k),
    decreases k,
{
    if k > 0 {
        lemma_coverage_push(ts, t, k - 1);
    }
}

/// Small shift amounts stay within the machine word and the format's caps.
proof fn lemma_small_shift_bounds(b: u8)
    by (bit_vector)
    requires
        b <= 15,
    ensures
        1 <= (1usize << b),
        (1usize << b) <= 32768,
        b <= 7 ==> (1usize << b) <= 128,
{
}

} // verus!
