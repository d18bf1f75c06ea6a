//! The Huffman codec: frequency analysis, greedy prefix-code tree
//! construction with a deterministic tie-break, code generation, the compact
//! frequency-table header, and the `compress` / `decompress` entry points.

use vstd::prelude::*;

use crate::bit_io::BitReader;
use crate::bit_io::BitWriter;
use crate::bit_io::bits_of_value;
use crate::bit_io::lemma_bits_of_value_len;
use crate::bit_io::lemma_value_of_bits_of_value;
use crate::bit_io::stream_bits;
use crate::bit_io::value_of_bits;
use crate::bit_io::zero_bits;
use crate::bit_io::padding_of;
use crate::bit_io::bit_at;
use crate::bit_io::read_val_at;
use crate::tree::Node;
use crate::tree::Symbol;
use crate::tree::spec_parent;
use crate::tree::symbol_rank;

verus! {

/// How many distinct symbol values the mode admits.
pub open spec fn n_syms(mode: Symbol) -> int {
    match mode {
        Symbol::OneByte(_) => 256,
        Symbol::TwoBytes(_) => 65536,
    }
}

/// The symbol of the given mode carrying value `v`.
pub open spec fn mk_symbol(mode: Symbol, v: int) -> Symbol {
    match mode {
        Symbol::OneByte(_) => Symbol::OneByte(v as u8),
        Symbol::TwoBytes(_) => Symbol::TwoBytes(v as u16),
    }
}

/// The symbol values of an input buffer read as fixed-width symbols: its
/// bytes, or its big-endian byte pairs with a trailing odd byte dropped.
pub open spec fn syms_of(input: Seq<u8>, mode: Symbol) -> Seq<int> {
    match mode {
        Symbol::OneByte(_) => Seq::new(input.len(), |i: int| input[i] as int),
        Symbol::TwoBytes(_) => Seq::new(
            (input.len() / 2) as nat,
            |i: int| input[2 * i] as int * 256 + input[2 * i + 1] as int,
        ),
    }
}

/// How often symbol value `s` occurs in a symbol sequence.
pub open spec fn count_sym(syms: Seq<int>, s: int) -> int
    decreases syms.len(),
{
    if syms.len() == 0 {
        0
    } else {
        count_sym(syms.drop_last(), s) + if syms.last() == s {
            1int
        } else {
            0int
        }
    }
}

/// Saturation at the 32-bit counter width.
pub open spec fn clip_u32(x: int) -> int {
    if x > u32::MAX {
        u32::MAX as int
    } else {
        x
    }
}

/// The frequency table an input buffer yields: per symbol value, its
/// occurrence count, saturating at the counter width.
pub open spec fn spec_freqs(input: Seq<u8>, mode: Symbol) -> Seq<u32> {
    Seq::new(n_syms(mode) as nat, |s: int| clip_u32(count_sym(syms_of(input, mode), s)) as u32)
}

/// The size class of a frequency value: absent, fits in 8 bits, fits in 16
/// bits, or needs 32 bits (the reserved class the encoder never produces).
pub open spec fn freq_class(f: u32) -> int {
    if f == 0 {
        0
    } else if f <= 255 {
        1
    } else if f <= 65535 {
        2
    } else {
        3
    }
}

/// The width, in bits, of a frequency value of the given size class.
pub open spec fn class_width(c: int) -> int {
    if c == 0 {
        0
    } else if c == 1 {
        8
    } else if c == 2 {
        16
    } else {
        32
    }
}

/// The two marker bits of a size class, high bit first.
pub open spec fn class_marker_bits(c: int) -> Seq<bool> {
    seq![c == 2 || c == 3, c == 1 || c == 3]
}

/// Byte mode, first header section: the two size-class bits of each of the
/// first `n` symbol values, in ascending symbol order.
pub open spec fn one_byte_class_section(freqs: Seq<u32>, n: int) -> Seq<bool>
    decreases n,
{
    if n <= 0 {
        Seq::empty()
    } else {
        one_byte_class_section(freqs, n - 1) + class_marker_bits(freq_class(freqs[n - 1]))
    }
}

/// Byte mode, second header section: each present frequency value at the
/// width its size class implies, in ascending symbol order.
pub open spec fn one_byte_value_section(freqs: Seq<u32>, n: int) -> Seq<bool>
    decreases n,
{
    if n <= 0 {
        Seq::empty()
    } else {
        one_byte_value_section(freqs, n - 1) + bits_of_value(
            freqs[n - 1],
            class_width(freq_class(freqs[n - 1])),
        )
    }
}

/// Pair mode, first header section: one existence bit per symbol value.
pub open spec fn pair_exist_section(freqs: Seq<u32>, n: int) -> Seq<bool>
    decreases n,
{
    if n <= 0 {
        Seq::empty()
    } else {
        pair_exist_section(freqs, n - 1) + seq![freqs[n - 1] != 0u32]
    }
}

/// Pair mode: one present symbol's size bit immediately followed by its
/// frequency value at the chosen width. Frequencies above the 16-bit tier are
/// not representable in this format; their 32-bit encoding is a known
/// limitation the decoder does not understand.
pub open spec fn pair_value_bits(f: u32) -> Seq<bool> {
    if f == 0 {
        Seq::empty()
    } else if f <= 255 {
        seq![false] + bits_of_value(f, 8)
    } else if f <= 65535 {
        seq![true] + bits_of_value(f, 16)
    } else {
        seq![true] + bits_of_value(f, 32)
    }
}

/// Pair mode, second header section: size bit and value of each present
/// symbol, in ascending symbol order.
pub open spec fn pair_value_section(freqs: Seq<u32>, n: int) -> Seq<bool>
    decreases n,
{
    if n <= 0 {
        Seq::empty()
    } else {
        pair_value_section(freqs, n - 1) + pair_value_bits(freqs[n - 1])
    }
}

/// The serialized frequency table, as written right after the mode bit.
pub open spec fn header_bits(freqs: Seq<u32>, mode: Symbol) -> Seq<bool> {
    match mode {
        Symbol::OneByte(_) => one_byte_class_section(freqs, 256) + one_byte_value_section(
            freqs,
            256,
        ),
        Symbol::TwoBytes(_) => pair_exist_section(freqs, 65536) + pair_value_section(freqs, 65536),
    }
}

/// The extraction order of the tree builder: lower frequency first, and on
/// equal frequencies the lower-ranked symbol first.
pub open spec fn node_lt(a: Node, b: Node) -> bool {
    a.frequency < b.frequency || (a.frequency == b.frequency && symbol_rank(a.symbol)
        < symbol_rank(b.symbol))
}

/// The index of the first node in `nodes[i..]` that every other one follows
/// in extraction order.
pub open spec fn min_node_idx(nodes: Seq<Node>, i: int) -> int
    recommends
        0 <= i < nodes.len(),
    decreases nodes.len() - i,
{
    if i >= nodes.len() - 1 {
        i
    } else {
        let j = min_node_idx(nodes, i + 1);
        if node_lt(nodes[j], nodes[i]) {
            j
        } else {
            i
        }
    }
}

/// The greedy minimum-frequency merge: extract the two first nodes in
/// extraction order, merge them under a fresh parent, reinsert, and repeat
/// until one node remains.
pub open spec fn spec_merge(nodes: Seq<Node>) -> Node
    recommends
        nodes.len() >= 1,
    decreases nodes.len(),
    via spec_merge_decreases
{
    if nodes.len() <= 1 {
        nodes[0]
    } else {
        let i1 = min_node_idx(nodes, 0);
        let rest1 = nodes.remove(i1);
        let i2 = min_node_idx(rest1, 0);
        let rest2 = rest1.remove(i2);
        spec_merge(rest2.push(spec_parent(nodes[i1], rest1[i2])))
    }
}

#[via_fn]
proof fn spec_merge_decreases(nodes: Seq<Node>) {
    if nodes.len() > 1 {
        lemma_min_node_idx_in_range(nodes, 0);
        lemma_min_node_idx_in_range(nodes.remove(min_node_idx(nodes, 0)), 0);
    }
}

/// One leaf per symbol value with a non-zero count among the first `n`, in
/// ascending symbol order.
pub open spec fn spec_leaves(freqs: Seq<u32>, mode: Symbol, n: int) -> Seq<Node>
    decreases n,
{
    if n <= 0 {
        Seq::empty()
    } else {
        spec_leaves(freqs, mode, n - 1) + if freqs[n - 1] == 0 {
            Seq::empty()
        } else {
            seq![Node {
                frequency: freqs[n - 1],
                symbol: mk_symbol(mode, n - 1),
                left: Option::None,
                right: Option::None,
            }]
        }
    }
}

/// The tree the builder yields for a frequency table: the greedy merge of its
/// leaves. Meaningful only when at least one count is non-zero.
pub open spec fn spec_build_tree(freqs: Seq<u32>, mode: Symbol) -> Node {
    spec_merge(spec_leaves(freqs, mode, n_syms(mode)))
}

/// Some symbol has a non-zero count, so the leaf list is non-empty.
pub proof fn lemma_leaves_nonempty(freqs: Seq<u32>, mode: Symbol, n: int, s: int)
    requires
        0 <= s < n,
        freqs[s] != 0,
    ensures
        spec_leaves(freqs, mode, n).len() >= 1,
    decreases n,
{
    if s < n - 1 {
        lemma_leaves_nonempty(freqs, mode, n - 1, s);
    }
}

/// Every leaf is a well-formed tree.
pub proof fn lemma_leaves_wf(freqs: Seq<u32>, mode: Symbol, n: int)
    ensures
        forall|i: int|
            0 <= i < spec_leaves(freqs, mode, n).len() ==> (#[trigger] spec_leaves(
                freqs,
                mode,
                n,
            )[i]).wf(),
    decreases n,
{
    if n > 0 {
        lemma_leaves_wf(freqs, mode, n - 1);
        let prev = spec_leaves(freqs, mode, n - 1);
        let cur = spec_leaves(freqs, mode, n);
        assert forall|i: int| 0 <= i < cur.len() implies (#[trigger] cur[i]).wf() by {
            if i < prev.len() {
                assert(cur[i] == prev[i]);
            } else {
                assert(cur[i].spec_is_leaf());
            }
        };
    }
}

/// Merging well-formed trees yields a well-formed tree.
pub proof fn lemma_spec_merge_wf(nodes: Seq<Node>)
    requires
        nodes.len() >= 1,
        forall|i: int| 0 <= i < nodes.len() ==> (#[trigger] nodes[i]).wf(),
    ensures
        spec_merge(nodes).wf(),
    decreases nodes.len(),
{
    if nodes.len() > 1 {
        let i1 = min_node_idx(nodes, 0);
        lemma_min_node_idx_in_range(nodes, 0);
        let rest1 = nodes.remove(i1);
        lemma_min_node_idx_in_range(rest1, 0);
        let i2 = min_node_idx(rest1, 0);
        let rest2 = rest1.remove(i2);
        let next = rest2.push(spec_parent(nodes[i1], rest1[i2]));
        assert(nodes[i1].wf());
        assert(rest1[i2].wf());
        assert(spec_parent(nodes[i1], rest1[i2]).wf());
        assert(forall|i: int| 0 <= i < next.len() ==> (#[trigger] next[i]).wf());
        lemma_spec_merge_wf(next);
    }
}

/// The extraction index stays inside the list.
pub proof fn lemma_min_node_idx_in_range(nodes: Seq<Node>, i: int)
    requires
        0 <= i < nodes.len(),
    ensures
        i <= min_node_idx(nodes, i) < nodes.len(),
    decreases nodes.len() - i,
{
    if i < nodes.len() - 1 {
        lemma_min_node_idx_in_range(nodes, i + 1);
    }
}

/// The plain value a symbol carries.
pub open spec fn sym_value(s: Symbol) -> int {
    match s {
        Symbol::OneByte(b) => b as int,
        Symbol::TwoBytes(v) => v as int,
    }
}

/// Whether a symbol belongs to the given mode.
pub open spec fn sym_in_mode(s: Symbol, mode: Symbol) -> bool {
    match (s, mode) {
        (Symbol::OneByte(_), Symbol::OneByte(_)) => true,
        (Symbol::TwoBytes(_), Symbol::TwoBytes(_)) => true,
        _ => false,
    }
}

/// All leaves of the tree carry symbols of the given mode.
pub open spec fn tree_mode_ok(t: Node, mode: Symbol) -> bool
    decreases t,
{
    &&& (t.spec_is_leaf() ==> sym_in_mode(t.symbol, mode))
    &&& (match t.left {
        Option::Some(l) => tree_mode_ok(*l, mode),
        Option::None => true,
    })
    &&& (match t.right {
        Option::Some(r) => tree_mode_ok(*r, mode),
        Option::None => true,
    })
}

/// The code table of a subtree under a given path prefix: the root-to-leaf
/// path of every leaf, `false` for a left descent and `true` for a right one.
pub open spec fn spec_codes(t: Node, prefix: Seq<bool>) -> Map<Symbol, Seq<bool>>
    decreases t,
{
    if t.spec_is_leaf() {
        map![t.symbol => prefix]
    } else {
        let ml = match t.left {
            Option::Some(l) => spec_codes(*l, prefix.push(false)),
            Option::None => Map::empty(),
        };
        let mr = match t.right {
            Option::Some(r) => spec_codes(*r, prefix.push(true)),
            Option::None => Map::empty(),
        };
        ml.union_prefer_right(mr)
    }
}

/// The codeword a code table holds for symbol value `v`, or nothing.
pub open spec fn table_code(table: Seq<Option<Vec<bool>>>, v: int) -> Seq<bool> {
    if 0 <= v < table.len() && table[v] is Some {
        table[v].unwrap()@
    } else {
        Seq::empty()
    }
}

/// Whether an indexed code table holds exactly the code map of a run.
pub open spec fn table_matches(
    table: Seq<Option<Vec<bool>>>,
    m: Map<Symbol, Seq<bool>>,
    mode: Symbol,
) -> bool {
    &&& table.len() == n_syms(mode)
    &&& forall|v: int|
        0 <= v < n_syms(mode) ==> if m.dom().contains(mk_symbol(mode, v)) {
            (#[trigger] table[v]) is Some && table[v].unwrap()@ == m[mk_symbol(mode, v)]
        } else {
            table[v] is None
        }
}

/// The coded symbol stream: the concatenated codewords of the first `k`
/// symbols; a symbol without a codeword contributes nothing.
pub open spec fn table_code_section(
    syms: Seq<int>,
    table: Seq<Option<Vec<bool>>>,
    k: int,
) -> Seq<bool>
    decreases k,
{
    if k <= 0 {
        Seq::empty()
    } else {
        table_code_section(syms, table, k - 1) + table_code(table, syms[k - 1])
    }
}

/// The coded symbol stream over the abstract code map of a run.
pub open spec fn map_code_section(
    syms: Seq<int>,
    m: Map<Symbol, Seq<bool>>,
    mode: Symbol,
    k: int,
) -> Seq<bool>
    decreases k,
{
    if k <= 0 {
        Seq::empty()
    } else {
        map_code_section(syms, m, mode, k - 1) + if m.dom().contains(mk_symbol(mode, syms[k - 1])) {
            m[mk_symbol(mode, syms[k - 1])]
        } else {
            Seq::empty()
        }
    }
}

/// The code map a run over this input derives: the codeword of every symbol
/// occurring in the input.
pub open spec fn spec_code_map(input: Seq<u8>, mode: Symbol) -> Map<Symbol, Seq<bool>> {
    spec_codes(spec_build_tree(spec_freqs(input, mode), mode), Seq::empty())
}

/// Whether the input holds at least one whole symbol of the mode.
pub open spec fn has_symbols(input: Seq<u8>, mode: Symbol) -> bool {
    syms_of(input, mode).len() > 0
}

/// The whole compressed stream before padding: the mode bit, the serialized
/// frequency table, and the concatenated codewords of the input's symbols.
pub open spec fn compress_bits(input: Seq<u8>, mode: Symbol) -> Seq<bool> {
    seq![mode is TwoBytes] + header_bits(spec_freqs(input, mode), mode) + if has_symbols(
        input,
        mode,
    ) {
        map_code_section(
            syms_of(input, mode),
            spec_code_map(input, mode),
            mode,
            syms_of(input, mode).len() as int,
        )
    } else {
        Seq::empty()
    }
}

/// The compressed stream with its final byte zero-padded.
pub open spec fn spec_compress_output(input: Seq<u8>, mode: Symbol) -> Seq<bool> {
    compress_bits(input, mode) + zero_bits(padding_of(compress_bits(input, mode).len() as int))
}

/// How many bytes a stream of `nbits` bits occupies once padded.
pub open spec fn bytes_for(nbits: int) -> int {
    (nbits + padding_of(nbits)) / 8
}

/// Every symbol value the input yields lies inside the mode's symbol space.
pub proof fn lemma_syms_in_range(input: Seq<u8>, mode: Symbol)
    ensures
        forall|j: int|
            0 <= j < syms_of(input, mode).len() ==> 0 <= #[trigger] syms_of(input, mode)[j]
                < n_syms(mode),
{
    let syms = syms_of(input, mode);
    assert forall|j: int| 0 <= j < syms.len() implies 0 <= #[trigger] syms[j] < n_syms(mode) by {
        match mode {
            Symbol::OneByte(_) => {
            },
            Symbol::TwoBytes(_) => {
                assert(input[2 * j] as int * 256 <= 255 * 256);
            },
        }
    };
}

/// Occurrence counts are never negative.
pub proof fn lemma_count_nonneg(syms: Seq<int>, s: int)
    ensures
        count_sym(syms, s) >= 0,
    decreases syms.len(),
{
    if syms.len() > 0 {
        lemma_count_nonneg(syms.drop_last(), s);
    }
}

/// The last symbol of a non-empty sequence occurs in it.
pub proof fn lemma_count_last_pos(syms: Seq<int>)
    requires
        syms.len() > 0,
    ensures
        count_sym(syms, syms.last()) >= 1,
{
    lemma_count_nonneg(syms.drop_last(), syms.last());
}

/// A table matching the code map emits the same coded stream.
proof fn lemma_table_section_matches(
    syms: Seq<int>,
    table: Seq<Option<Vec<bool>>>,
    m: Map<Symbol, Seq<bool>>,
    mode: Symbol,
    k: int,
)
    requires
        table_matches(table, m, mode),
        k <= syms.len(),
        forall|j: int| 0 <= j < syms.len() ==> 0 <= #[trigger] syms[j] < n_syms(mode),
    ensures
        table_code_section(syms, table, k) == map_code_section(syms, m, mode, k),
    decreases k,
{
    if k > 0 {
        lemma_table_section_matches(syms, table, m, mode, k - 1);
        let v = syms[k - 1];
        if m.dom().contains(mk_symbol(mode, v)) {
            assert(table_code(table, v) == m[mk_symbol(mode, v)]);
        } else {
            assert(table_code(table, v) == Seq::<bool>::empty());
        }
    }
}

/// Every leaf of the builder carries a symbol of the run's mode.
proof fn lemma_leaves_mode_ok(freqs: Seq<u32>, mode: Symbol, n: int)
    ensures
        forall|i: int|
            0 <= i < spec_leaves(freqs, mode, n).len() ==> tree_mode_ok(
                #[trigger] spec_leaves(freqs, mode, n)[i],
                mode,
            ),
    decreases n,
{
    if n > 0 {
        lemma_leaves_mode_ok(freqs, mode, n - 1);
        let prev = spec_leaves(freqs, mode, n - 1);
        let cur = spec_leaves(freqs, mode, n);
        assert forall|i: int| 0 <= i < cur.len() implies tree_mode_ok(#[trigger] cur[i], mode) by {
            if i < prev.len() {
                assert(cur[i] == prev[i]);
            } else {
                assert(cur[i].spec_is_leaf());
                match mode {
                    Symbol::OneByte(_) => {
                    },
                    Symbol::TwoBytes(_) => {
                    },
                }
            }
        };
    }
}

/// Merging mode-consistent trees yields a mode-consistent tree.
proof fn lemma_spec_merge_mode_ok(nodes: Seq<Node>, mode: Symbol)
    requires
        nodes.len() >= 1,
        forall|i: int| 0 <= i < nodes.len() ==> tree_mode_ok(#[trigger] nodes[i], mode),
    ensures
        tree_mode_ok(spec_merge(nodes), mode),
    decreases nodes.len(),
{
    if nodes.len() > 1 {
        let i1 = min_node_idx(nodes, 0);
        lemma_min_node_idx_in_range(nodes, 0);
        let rest1 = nodes.remove(i1);
        lemma_min_node_idx_in_range(rest1, 0);
        let i2 = min_node_idx(rest1, 0);
        let rest2 = rest1.remove(i2);
        let next = rest2.push(spec_parent(nodes[i1], rest1[i2]));
        assert(tree_mode_ok(nodes[i1], mode));
        assert(tree_mode_ok(rest1[i2], mode));
        assert(tree_mode_ok(spec_parent(nodes[i1], rest1[i2]), mode));
        assert(forall|i: int| 0 <= i < next.len() ==> tree_mode_ok(#[trigger] next[i], mode));
        lemma_spec_merge_mode_ok(next, mode);
    }
}

/// Length of the byte-mode class section: two bits per symbol value.
proof fn lemma_class_section_len(freqs: Seq<u32>, n: int)
    requires
        n >= 0,
    ensures
        one_byte_class_section(freqs, n).len() == 2 * n,
    decreases n,
{
    if n > 0 {
        lemma_class_section_len(freqs, n - 1);
    }
}

/// The byte-mode value section holds at most 32 bits per symbol value.
proof fn lemma_value_section_len(freqs: Seq<u32>, n: int)
    requires
        n >= 0,
    ensures
        0 <= one_byte_value_section(freqs, n).len() <= 32 * n,
    decreases n,
{
    if n > 0 {
        lemma_value_section_len(freqs, n - 1);
        lemma_bits_of_value_len(freqs[n - 1], class_width(freq_class(freqs[n - 1])));
    }
}

/// Length of the pair-mode existence section: one bit per symbol value.
proof fn lemma_exist_section_len(freqs: Seq<u32>, n: int)
    requires
        n >= 0,
    ensures
        pair_exist_section(freqs, n).len() == n,
    decreases n,
{
    if n > 0 {
        lemma_exist_section_len(freqs, n - 1);
    }
}

/// The pair-mode value section holds at most 33 bits per symbol value.
proof fn lemma_pair_value_section_len(freqs: Seq<u32>, n: int)
    requires
        n >= 0,
    ensures
        0 <= pair_value_section(freqs, n).len() <= 33 * n,
    decreases n,
{
    if n > 0 {
        lemma_pair_value_section_len(freqs, n - 1);
        let f = freqs[n - 1];
        lemma_bits_of_value_len(f, 8);
        lemma_bits_of_value_len(f, 16);
        lemma_bits_of_value_len(f, 32);
    }
}

/// Rounding a bit count up to whole bytes adds less than one byte.
proof fn lemma_bytes_for_props(n: int)
    requires
        n >= 0,
    ensures
        n <= 8 * bytes_for(n) < n + 8,
{
    assert(0 <= (8 - n % 8) % 8 < 8 && (n + (8 - n % 8) % 8) % 8 == 0 && 8 * ((n + (8 - n % 8) % 8)
        / 8) == n + (8 - n % 8) % 8) by (nonlinear_arith)
        requires
            n >= 0,
    ;
}

/// The size class the decoder reads for byte symbol `s`: two bits at a fixed
/// offset behind the mode bit.
pub open spec fn parsed_class(bits: Seq<bool>, s: int) -> int {
    (if bit_at(bits, 1 + 2 * s) {
        2int
    } else {
        0int
    }) + (if bit_at(bits, 2 + 2 * s) {
        1int
    } else {
        0int
    })
}

/// Where the frequency value of byte symbol `s` starts: behind the mode bit,
/// the 512 class bits, and every earlier symbol's value.
pub open spec fn ob_val_offset(bits: Seq<bool>, s: int) -> int
    decreases s,
{
    if s <= 0 {
        513
    } else {
        ob_val_offset(bits, s - 1) + class_width(parsed_class(bits, s - 1))
    }
}

/// Value offsets begin behind the mode bit and the class section.
proof fn lemma_ob_val_offset_lb(bits: Seq<bool>, s: int)
    ensures
        ob_val_offset(bits, s) >= 513,
    decreases s,
{
    if s > 0 {
        lemma_ob_val_offset_lb(bits, s - 1);
    }
}

/// The frequency the decoder reconstructs for byte symbol `s`.
pub open spec fn parsed_ob_freq(bits: Seq<bool>, s: int) -> u32 {
    let c = parsed_class(bits, s);
    if c == 0 {
        0u32
    } else {
        read_val_at(bits, ob_val_offset(bits, s), class_width(c)) as u32
    }
}

/// The existence bit the decoder reads for pair symbol `s`.
pub open spec fn parsed_exists(bits: Seq<bool>, s: int) -> bool {
    bit_at(bits, 1 + s)
}

/// Where the size bit of pair symbol `s` starts: behind the mode bit, the
/// 65536 existence bits, and every earlier present symbol's size bit and
/// value.
pub open spec fn pair_val_offset(bits: Seq<bool>, s: int) -> int
    decreases s,
{
    if s <= 0 {
        65537
    } else {
        pair_val_offset(bits, s - 1) + if parsed_exists(bits, s - 1) {
            1 + (if bit_at(bits, pair_val_offset(bits, s - 1)) {
                16int
            } else {
                8int
            })
        } else {
            0int
        }
    }
}

/// Pair value offsets begin behind the mode bit and the existence section.
proof fn lemma_pair_val_offset_lb(bits: Seq<bool>, s: int)
    ensures
        pair_val_offset(bits, s) >= 65537,
    decreases s,
{
    if s > 0 {
        lemma_pair_val_offset_lb(bits, s - 1);
    }
}

/// The frequency the decoder reconstructs for pair symbol `s`.
pub open spec fn parsed_pair_freq(bits: Seq<bool>, s: int) -> u32 {
    if !parsed_exists(bits, s) {
        0u32
    } else {
        let off = pair_val_offset(bits, s);
        let w: int = if bit_at(bits, off) {
            16
        } else {
            8
        };
        read_val_at(bits, off + 1, w) as u32
    }
}

/// The whole frequency table the decoder reconstructs from a stream.
pub open spec fn parsed_freqs(bits: Seq<bool>, mode: Symbol) -> Seq<u32> {
    match mode {
        Symbol::OneByte(_) => Seq::new(256, |s: int| parsed_ob_freq(bits, s)),
        Symbol::TwoBytes(_) => Seq::new(65536, |s: int| parsed_pair_freq(bits, s)),
    }
}

/// Where the coded symbol stream begins once the header has been read: the
/// position behind the last frequency value, or the end of a truncated
/// stream.
pub open spec fn coded_start(bits: Seq<bool>, mode: Symbol) -> int {
    let e = match mode {
        Symbol::OneByte(_) => ob_val_offset(bits, 256),
        Symbol::TwoBytes(_) => pair_val_offset(bits, 65536),
    };
    if e <= bits.len() {
        e
    } else {
        bits.len() as int
    }
}

/// The sum of the first `n` frequency counts: the decoder's sole termination
/// signal.
pub open spec fn sum_freqs(freqs: Seq<u32>, n: int) -> int
    decreases n,
{
    if n <= 0 {
        0
    } else {
        sum_freqs(freqs, n - 1) + freqs[n - 1]
    }
}

/// The symbol values emitted by walking the tree along the stream's bits:
/// starting from `cur` under `root`, each bit descends left on zero and right
/// on one; a leaf emits its symbol and resets to the root, until `remaining`
/// symbols are out or the bits are exhausted. A root that is itself a leaf
/// emits without consuming bits.
pub open spec fn spec_walk(cur: Node, root: Node, bits: Seq<bool>, pos: int, remaining: int) -> Seq<
    int,
>
    decreases remaining, bits.len() - pos, cur,
{
    if remaining <= 0 {
        Seq::empty()
    } else if cur.spec_is_leaf() {
        seq![sym_value(cur.symbol)] + spec_walk(root, root, bits, pos, remaining - 1)
    } else if pos < 0 || pos >= bits.len() {
        Seq::empty()
    } else {
        match (if bits[pos] {
            cur.right
        } else {
            cur.left
        }) {
            Option::Some(child) => spec_walk(*child, root, bits, pos + 1, remaining),
            Option::None => Seq::empty(),
        }
    }
}

/// The output buffer a symbol value sequence expands to: one byte per byte
/// symbol, or big-endian byte pairs.
pub open spec fn syms_to_bytes(syms: Seq<int>, mode: Symbol) -> Seq<u8> {
    match mode {
        Symbol::OneByte(_) => Seq::new(syms.len(), |i: int| syms[i] as u8),
        Symbol::TwoBytes(_) => Seq::new(
            syms.len() * 2,
            |i: int|
                if i % 2 == 0 {
                    (syms[i / 2] / 256) as u8
                } else {
                    (syms[i / 2] % 256) as u8
                },
        ),
    }
}

/// What `decompress` returns for a byte buffer: the mode bit selects the
/// format, the header rebuilds the frequency table, and the tree walk over
/// the remaining bits emits the symbols, stopping at the table's total count
/// or at the end of the truncated stream. An empty table yields an empty
/// buffer.
pub open spec fn spec_decompress(input: Seq<u8>) -> Seq<u8> {
    let bits = stream_bits(input);
    let mode = if bit_at(bits, 0) {
        Symbol::TwoBytes(0)
    } else {
        Symbol::OneByte(0)
    };
    let fr = parsed_freqs(bits, mode);
    let total = sum_freqs(fr, n_syms(mode));
    if total == 0 {
        Seq::empty()
    } else {
        let tree = spec_build_tree(fr, mode);
        syms_to_bytes(spec_walk(tree, tree, bits, coded_start(bits, mode), total), mode)
    }
}

/// Upload options for encoding: pair-symbol mode and the diagnostic code
/// dump.
pub struct EncodingOptions {
    pub two_bytes: bool,
    pub show_codes: bool,
}

/// Upload options for decoding: the diagnostic code dump.
pub struct DecodingOptions {
    pub show_codes: bool,
}

/// The error shape the callers present to their users.
pub struct ErrorResponse {
    pub success: bool,
    pub error: String,
}

/// What a decoding run reports back: sizes, the optional code dump, and the
/// recovered payload in the caller's transport encoding.
pub struct DecodeResponse {
    pub success: bool,
    pub message: String,
    pub filename: String,
    pub original_size: usize,
    pub decompressed_size: usize,
    pub codes: Option<Vec<(String, String)>>,
    pub file_data: String,
}

/// The read-only size summary of one compression run. Ratios are quotients of
/// these fields and are left to the presentation layer.
pub struct CompressionStats {
    pub original_size: usize,
    pub compressed_size: usize,
    pub header_size: usize,
    pub compressed_data_size: usize,
    pub space_saved: usize,
}

/// The Huffman codec state for one compression or decompression run: one
/// frequency counter per possible symbol value of either mode, the selected
/// mode, the code table of the last compression, and the byte size of the
/// last header written.
pub struct Huffman {
    one_byte_counters: Vec<u32>,
    two_bytes_counters: Vec<u32>,
    symbol: Symbol,
    last_codes: Option<Vec<Option<Vec<bool>>>>,
    header_size: usize,
}

impl Huffman {
    pub closed spec fn inv(self) -> bool {
        &&& self.one_byte_counters@.len() == 256
        &&& self.two_bytes_counters@.len() == 65536
    }

    /// The selected symbol mode.
    pub closed spec fn mode(self) -> Symbol {
        self.symbol
    }

    /// The frequency table of the selected mode.
    pub closed spec fn freqs(self) -> Seq<u32> {
        match self.symbol {
            Symbol::OneByte(_) => self.one_byte_counters@,
            Symbol::TwoBytes(_) => self.two_bytes_counters@,
        }
    }

    /// The byte size of the last header written by `compress`.
    pub closed spec fn spec_header_size(self) -> int {
        self.header_size as int
    }

    pub fn new(symbol: Symbol) -> (r: Self)
        ensures
            r.inv(),
            r.mode() == symbol,
            r.freqs() =~= Seq::new(n_syms(symbol) as nat, |s: int| 0u32),
            r.spec_header_size() == 0,
            r.last_table() is None,
    {
        Self {
            one_byte_counters: vec![0u32; 256],
            two_bytes_counters: vec![0u32; 65536],
            symbol,
            last_codes: None,
            header_size: 0,
        }
    }

    /// Scans the input as fixed-width symbols of the selected mode and adds
    /// each occurrence to that symbol's counter, saturating at the counter
    /// width. A trailing partial symbol is dropped.
    pub fn count_frequencies(&mut self, file_data: &[u8])
        requires
            old(self).inv(),
        ensures
            final(self).inv(),
            final(self).mode() == old(self).mode(),
            final(self).spec_header_size() == old(self).spec_header_size(),
            final(self).last_table() == old(self).last_table(),
            forall|s: int|
                0 <= s < n_syms(old(self).mode()) ==> #[trigger] final(self).freqs()[s] as int
                    == clip_u32(
                    old(self).freqs()[s] + count_sym(syms_of(file_data@, old(self).mode()), s),
                ),
    {
        let ghost syms = syms_of(file_data@, old(self).mode());
        match self.symbol {
            Symbol::OneByte(_) => {
                let mut k: usize = 0;
                while k < file_data.len()
                    invariant
                        self.inv(),
                        self.symbol == old(self).symbol,
                        self.symbol is OneByte,
                        self.two_bytes_counters@ == old(self).two_bytes_counters@,
                        self.last_codes == old(self).last_codes,
                        self.header_size == old(self).header_size,
                        k <= file_data@.len(),
                        syms == syms_of(file_data@, old(self).mode()),
                        forall|s: int|
                            0 <= s < 256 ==> #[trigger] self.one_byte_counters@[s] as int
                                == clip_u32(
                                old(self).one_byte_counters@[s] + count_sym(
                                    syms.take(k as int),
                                    s,
                                ),
                            ),
                    decreases file_data@.len() - k,
                {
                    let s: usize = file_data[k] as usize;
                    proof {
                        assert(syms.take(k + 1).drop_last() =~= syms.take(k as int));
                        assert(syms.take(k + 1).last() == s as int);
                    }
                    let c: u32 = self.one_byte_counters[s];
                    if c < u32::MAX {
                        self.one_byte_counters[s] = c + 1;
                    }
                    k = k + 1;
                }
                proof {
                    assert(syms.take(file_data@.len() as int) =~= syms);
                }
            },
            Symbol::TwoBytes(_) => {
                let len: usize = file_data.len();
                let total: usize = len / 2;
                proof {
                    assert(file_data@.len() / 2 * 2 <= file_data@.len()) by (nonlinear_arith);
                }
                let mut k: usize = 0;
                while k < total
                    invariant
                        self.inv(),
                        self.symbol == old(self).symbol,
                        self.symbol is TwoBytes,
                        self.one_byte_counters@ == old(self).one_byte_counters@,
                        self.last_codes == old(self).last_codes,
                        self.header_size == old(self).header_size,
                        total == file_data@.len() / 2,
                        total * 2 <= file_data@.len(),
                        file_data@.len() <= usize::MAX,
                        k <= total,
                        syms == syms_of(file_data@, old(self).mode()),
                        forall|s: int|
                            0 <= s < 65536 ==> #[trigger] self.two_bytes_counters@[s] as int
                                == clip_u32(
                                old(self).two_bytes_counters@[s] + count_sym(
                                    syms.take(k as int),
                                    s,
                                ),
                            ),
                    decreases total - k,
                {
                    proof {
                        assert(2 * k + 1 < file_data@.len()) by (nonlinear_arith)
                            requires
                                k < total,
                                total * 2 <= file_data@.len(),
                        ;
                    }
                    let hi: u8 = file_data[2 * k];
                    let lo: u8 = file_data[2 * k + 1];
                    let s: usize = (hi as usize) * 256 + (lo as usize);
                    proof {
                        assert(syms.take(k + 1).drop_last() =~= syms.take(k as int));
                        assert(syms.take(k + 1).last() == s as int);
                    }
                    let c: u32 = self.two_bytes_counters[s];
                    if c < u32::MAX {
                        self.two_bytes_counters[s] = c + 1;
                    }
                    k = k + 1;
                }
                proof {
                    assert(syms.take(total as int) =~= syms);
                }
            },
        }
    }

    /// The two-bit size-class marker value of one frequency.
    fn get_frequency_encoding(&self, frequency: u32) -> (r: u8)
        ensures
            r as int == freq_class(frequency),
    {
        if frequency == 0 {
            0b00
        } else if frequency <= 255 {
            0b01
        } else if frequency <= 65535 {
            0b10
        } else {
            0b11
        }
    }

    /// Writes the first header section of the selected mode: size-class
    /// markers in byte mode, existence bits in pair mode.
    fn write_frequencies_in_header(&self, writer: &mut BitWriter)
        requires
            self.inv(),
            old(writer).inv(),
        ensures
            final(writer).inv(),
            final(writer).bits() == old(writer).bits() + (match self.mode() {
                Symbol::OneByte(_) => one_byte_class_section(self.freqs(), 256),
                Symbol::TwoBytes(_) => pair_exist_section(self.freqs(), 65536),
            }),
    {
        match self.symbol {
            Symbol::OneByte(_) => self.write_frequency_header_on_one_byte(writer),
            Symbol::TwoBytes(_) => self.write_frequency_header_on_two_bytes(writer),
        }
    }

    fn write_frequency_header_on_one_byte(&self, writer: &mut BitWriter)
        requires
            self.inv(),
            old(writer).inv(),
        ensures
            final(writer).inv(),
            final(writer).bits() == old(writer).bits() + one_byte_class_section(
                self.one_byte_counters@,
                256,
            ),
    {
        let ghost fr = self.one_byte_counters@;
        let mut sym: usize = 0;
        while sym < 256
            invariant
                self.inv(),
                writer.inv(),
                sym <= 256,
                fr == self.one_byte_counters@,
                writer.bits() == old(writer).bits() + one_byte_class_section(fr, sym as int),
            decreases 256 - sym,
        {
            let frequency: u32 = self.one_byte_counters[sym];
            let encoding: u8 = self.get_frequency_encoding(frequency);
            proof {
                lemma_marker_bits(encoding);
            }
            writer.write_bit((encoding & 0b10) != 0);
            writer.write_bit((encoding & 0b01) != 0);
            proof {
                assert(writer.bits() =~= old(writer).bits() + one_byte_class_section(
                    fr,
                    sym as int + 1,
                ));
            }
            sym = sym + 1;
        }
    }

    fn write_frequency_header_on_two_bytes(&self, writer: &mut BitWriter)
        requires
            self.inv(),
            old(writer).inv(),
        ensures
            final(writer).inv(),
            final(writer).bits() == old(writer).bits() + pair_exist_section(
                self.two_bytes_counters@,
                65536,
            ),
    {
        let ghost fr = self.two_bytes_counters@;
        let mut sym: usize = 0;
        while sym < 65536
            invariant
                self.inv(),
                writer.inv(),
                sym <= 65536,
                fr == self.two_bytes_counters@,
                writer.bits() == old(writer).bits() + pair_exist_section(fr, sym as int),
            decreases 65536 - sym,
        {
            let exists_here: bool = self.two_bytes_counters[sym] != 0;
            writer.write_bit(exists_here);
            proof {
                assert(writer.bits() =~= old(writer).bits() + pair_exist_section(
                    fr,
                    sym as int + 1,
                ));
            }
            sym = sym + 1;
        }
    }

    /// Writes the second header section of the selected mode: the frequency
    /// values, each at the width its marker announced.
    fn write_frequency_values_in_header(&self, writer: &mut BitWriter)
        requires
            self.inv(),
            old(writer).inv(),
            self.mode() is OneByte ==> forall|s: int|
                0 <= s < 256 ==> #[trigger] self.freqs()[s] <= 65535,
        ensures
            final(writer).inv(),
            final(writer).bits() == old(writer).bits() + (match self.mode() {
                Symbol::OneByte(_) => one_byte_value_section(self.freqs(), 256),
                Symbol::TwoBytes(_) => pair_value_section(self.freqs(), 65536),
            }),
    {
        match self.symbol {
            Symbol::OneByte(_) => {
                proof {
                    assert(forall|s: int|
                        0 <= s < 256 ==> #[trigger] self.one_byte_counters@[s]
                            == self.freqs()[s]);
                }
                self.write_frequency_value_on_one_byte(writer)
            },
            Symbol::TwoBytes(_) => self.write_frequency_values_on_two_bytes(writer),
        }
    }

    fn write_frequency_value_on_one_byte(&self, writer: &mut BitWriter)
        requires
            self.inv(),
            old(writer).inv(),
            forall|s: int| 0 <= s < 256 ==> #[trigger] self.one_byte_counters@[s] <= 65535,
        ensures
            final(writer).inv(),
            final(writer).bits() == old(writer).bits() + one_byte_value_section(
                self.one_byte_counters@,
                256,
            ),
    {
        let ghost fr = self.one_byte_counters@;
        let mut sym: usize = 0;
        while sym < 256
            invariant
                self.inv(),
                writer.inv(),
                sym <= 256,
                fr == self.one_byte_counters@,
                forall|s: int| 0 <= s < 256 ==> #[trigger] fr[s] <= 65535,
                writer.bits() == old(writer).bits() + one_byte_value_section(fr, sym as int),
            decreases 256 - sym,
        {
            let frequency: u32 = self.one_byte_counters[sym];
            let encoding: u8 = self.get_frequency_encoding(frequency);
            if encoding == 0b01 {
                writer.write_n_bits(8, frequency);
            } else if encoding == 0b10 {
                writer.write_n_bits(16, frequency);
            }
            proof {
                assert(writer.bits() =~= old(writer).bits() + one_byte_value_section(
                    fr,
                    sym as int + 1,
                ));
            }
            sym = sym + 1;
        }
    }

    fn write_frequency_values_on_two_bytes(&self, writer: &mut BitWriter)
        requires
            self.inv(),
            old(writer).inv(),
        ensures
            final(writer).inv(),
            final(writer).bits() == old(writer).bits() + pair_value_section(
                self.two_bytes_counters@,
                65536,
            ),
    {
        let ghost fr = self.two_bytes_counters@;
        let mut sym: usize = 0;
        while sym < 65536
            invariant
                self.inv(),
                writer.inv(),
                sym <= 65536,
                fr == self.two_bytes_counters@,
                writer.bits() == old(writer).bits() + pair_value_section(fr, sym as int),
            decreases 65536 - sym,
        {
            let frequency: u32 = self.two_bytes_counters[sym];
            if frequency != 0 {
                if frequency <= 255 {
                    writer.write_bit(false);
                    writer.write_n_bits(8, frequency);
                } else if frequency <= 65535 {
                    writer.write_bit(true);
                    writer.write_n_bits(16, frequency);
                } else {
                    writer.write_bit(true);
                    writer.write_n_bits(32, frequency);
                }
            }
            proof {
                assert(writer.bits() =~= old(writer).bits() + pair_value_section(
                    fr,
                    sym as int + 1,
                ));
            }
            sym = sym + 1;
        }
    }
    /// Builds the prefix-code tree over all symbols with a non-zero count by
    /// the greedy minimum-frequency merge. At least one count must be
    /// non-zero; the empty table is the caller's distinguished case.
    pub fn build_huffman_tree(&self) -> (r: Node)
        requires
            self.inv(),
            exists|s: int| 0 <= s < n_syms(self.mode()) && #[trigger] self.freqs()[s] > 0,
        ensures
            r == spec_build_tree(self.freqs(), self.mode()),
            r.wf(),
    {
        let ghost fr = self.freqs();
        let ghost mode = self.mode();
        let mut heap: Vec<Node> = Vec::new();

        match self.symbol {
            Symbol::OneByte(_) => {
                let mut sym: usize = 0;
                while sym < 256
                    invariant
                        self.inv(),
                        self.symbol is OneByte,
                        fr == self.freqs(),
                        mode == self.mode(),
                        sym <= 256,
                        heap@ == spec_leaves(fr, mode, sym as int),
                    decreases 256 - sym,
                {
                    let frequency: u32 = self.one_byte_counters[sym];
                    if frequency > 0 {
                        let leaf = Node::new(Symbol::OneByte(sym as u8), frequency);
                        heap.push(leaf);
                    }
                    proof {
                        assert(heap@ =~= spec_leaves(fr, mode, sym as int + 1));
                    }
                    sym = sym + 1;
                }
            },
            Symbol::TwoBytes(_) => {
                let mut sym: usize = 0;
                while sym < 65536
                    invariant
                        self.inv(),
                        self.symbol is TwoBytes,
                        fr == self.freqs(),
                        mode == self.mode(),
                        sym <= 65536,
                        heap@ == spec_leaves(fr, mode, sym as int),
                    decreases 65536 - sym,
                {
                    let frequency: u32 = self.two_bytes_counters[sym];
                    if frequency > 0 {
                        let leaf = Node::new(Symbol::TwoBytes(sym as u16), frequency);
                        heap.push(leaf);
                    }
                    proof {
                        assert(heap@ =~= spec_leaves(fr, mode, sym as int + 1));
                    }
                    sym = sym + 1;
                }
            },
        }

        proof {
            let s = choose|s: int| 0 <= s < n_syms(mode) && #[trigger] fr[s] > 0;
            lemma_leaves_nonempty(fr, mode, n_syms(mode), s);
            lemma_leaves_wf(fr, mode, n_syms(mode));
            lemma_spec_merge_wf(heap@);
        }

        while heap.len() > 1
            invariant
                heap@.len() >= 1,
                spec_merge(heap@) == spec_build_tree(fr, mode),
                spec_merge(heap@).wf(),
            decreases heap@.len(),
        {
            let ghost before = heap@;
            let i1 = find_min_node(&heap);
            let left = heap.remove(i1);
            let i2 = find_min_node(&heap);
            let right = heap.remove(i2);
            proof {
                lemma_min_node_idx_in_range(before, 0);
                lemma_min_node_idx_in_range(before.remove(i1 as int), 0);
            }
            let parent = Node::new_parent(left, right);
            heap.push(parent);
            proof {
                assert(heap@ == before.remove(i1 as int).remove(i2 as int).push(
                    spec_parent(before[i1 as int], before.remove(i1 as int)[i2 as int]),
                ));
                assert(spec_merge(before) == spec_merge(heap@));
            }
        }

        let r = match heap.pop() {
            Some(node) => node,
            None => {
                proof {
                    assert(false);
                }
                Node::new(Symbol::OneByte(0), 0)
            },
        };
        r
    }

    /// Walks the tree depth first and records each leaf's root-to-leaf path
    /// in a table indexed by symbol value.
    fn generate_huffman_codes(&self, root: &Node) -> (codes: Vec<Option<Vec<bool>>>)
        requires
            self.inv(),
            root.wf(),
            tree_mode_ok(*root, self.mode()),
        ensures
            table_matches(codes@, spec_codes(*root, Seq::empty()), self.mode()),
    {
        let mut codes: Vec<Option<Vec<bool>>> = self.empty_code_table();
        let mut current_code: Vec<bool> = Vec::new();
        self.generate_codes_recursive(root, &mut current_code, &mut codes);
        codes
    }

    /// A table with one empty slot per symbol value of the selected mode.
    fn empty_code_table(&self) -> (codes: Vec<Option<Vec<bool>>>)
        ensures
            codes@.len() == n_syms(self.mode()),
            forall|v: int| 0 <= v < codes@.len() ==> (#[trigger] codes@[v]) is None,
    {
        let n: usize = match self.symbol {
            Symbol::OneByte(_) => 256,
            Symbol::TwoBytes(_) => 65536,
        };
        let mut codes: Vec<Option<Vec<bool>>> = Vec::new();
        while codes.len() < n
            invariant
                codes@.len() <= n,
                forall|v: int| 0 <= v < codes@.len() ==> (#[trigger] codes@[v]) is None,
            decreases n - codes@.len(),
        {
            codes.push(None);
        }
        codes
    }

    fn generate_codes_recursive(
        &self,
        node: &Node,
        current_code: &mut Vec<bool>,
        codes: &mut Vec<Option<Vec<bool>>>,
    )
        requires
            self.inv(),
            node.wf(),
            tree_mode_ok(*node, self.mode()),
            old(codes)@.len() == n_syms(self.mode()),
        ensures
            final(current_code)@ == old(current_code)@,
            final(codes)@.len() == old(codes)@.len(),
            forall|v: int|
                0 <= v < n_syms(self.mode()) ==> {
                    let m = spec_codes(*node, old(current_code)@);
                    if m.dom().contains(mk_symbol(self.mode(), v)) {
                        (#[trigger] final(codes)@[v]) is Some && final(codes)@[v].unwrap()@
                            == m[mk_symbol(self.mode(), v)]
                    } else {
                        final(codes)@[v] == old(codes)@[v]
                    }
                },
        decreases *node,
    {
        if node.is_leaf() {
            let v: usize = match node.symbol {
                Symbol::OneByte(b) => b as usize,
                Symbol::TwoBytes(v) => v as usize,
            };
            let path = copy_bits(current_code);
            codes[v] = Some(path);
            proof {
                assert(mk_symbol(self.mode(), v as int) == node.symbol);
            }
            return ;
        }
        match (&node.left, &node.right) {
            (Some(l), Some(r)) => {
                let ghost prefix = current_code@;
                let ghost mode = self.mode();
                let ghost ml = spec_codes(**l, prefix.push(false));
                let ghost mr = spec_codes(**r, prefix.push(true));

                current_code.push(false);
                self.generate_codes_recursive(&**l, current_code, codes);
                let _dropped = current_code.pop();
                proof {
                    assert(current_code@ =~= prefix);
                }
                let ghost mid = codes@;

                current_code.push(true);
                self.generate_codes_recursive(&**r, current_code, codes);
                let _dropped2 = current_code.pop();
                proof {
                    assert(current_code@ =~= prefix);
                    assert(spec_codes(*node, prefix) == ml.union_prefer_right(mr));
                    assert forall|v: int| 0 <= v < n_syms(mode) implies {
                        let m = spec_codes(*node, prefix);
                        if m.dom().contains(mk_symbol(mode, v)) {
                            (#[trigger] codes@[v]) is Some && codes@[v].unwrap()@ == m[mk_symbol(
                                mode,
                                v,
                            )]
                        } else {
                            codes@[v] == old(codes)@[v]
                        }
                    } by {
                        let sym = mk_symbol(mode, v);
                        if mr.dom().contains(sym) {
                        } else if ml.dom().contains(sym) {
                            assert(codes@[v] == mid[v]);
                        } else {
                            assert(codes@[v] == mid[v]);
                        }
                    };
                }
            },
            _ => {
                proof {
                    assert(false);
                }
            },
        }
    }

    /// Re-scans the input and emits each symbol's codeword; a symbol without
    /// a codeword is skipped.
    fn write_codes(&self, file_data: &[u8], writer: &mut BitWriter, codes: &Vec<Option<Vec<bool>>>)
        requires
            self.inv(),
            old(writer).inv(),
        ensures
            final(writer).inv(),
            final(writer).bits() == old(writer).bits() + table_code_section(
                syms_of(file_data@, self.mode()),
                codes@,
                syms_of(file_data@, self.mode()).len() as int,
            ),
    {
        let ghost syms = syms_of(file_data@, self.mode());
        match self.symbol {
            Symbol::OneByte(_) => {
                let mut k: usize = 0;
                while k < file_data.len()
                    invariant
                        self.inv(),
                        self.symbol is OneByte,
                        writer.inv(),
                        k <= file_data@.len(),
                        syms == syms_of(file_data@, self.mode()),
                        writer.bits() == old(writer).bits() + table_code_section(
                            syms,
                            codes@,
                            k as int,
                        ),
                    decreases file_data@.len() - k,
                {
                    let s: usize = file_data[k] as usize;
                    self.emit_codeword(writer, codes, s);
                    proof {
                        assert(writer.bits() =~= old(writer).bits() + table_code_section(
                            syms,
                            codes@,
                            k as int + 1,
                        ));
                    }
                    k = k + 1;
                }
            },
            Symbol::TwoBytes(_) => {
                let len: usize = file_data.len();
                let total: usize = len / 2;
                proof {
                    assert(file_data@.len() / 2 * 2 <= file_data@.len()) by (nonlinear_arith);
                }
                let mut k: usize = 0;
                while k < total
                    invariant
                        self.inv(),
                        self.symbol is TwoBytes,
                        writer.inv(),
                        total == file_data@.len() / 2,
                        total * 2 <= file_data@.len(),
                        file_data@.len() <= usize::MAX,
                        k <= total,
                        syms == syms_of(file_data@, self.mode()),
                        writer.bits() == old(writer).bits() + table_code_section(
                            syms,
                            codes@,
                            k as int,
                        ),
                    decreases total - k,
                {
                    proof {
                        assert(2 * k + 1 < file_data@.len()) by (nonlinear_arith)
                            requires
                                k < total,
                                total * 2 <= file_data@.len(),
                        ;
                    }
                    let hi: u8 = file_data[2 * k];
                    let lo: u8 = file_data[2 * k + 1];
                    let s: usize = (hi as usize) * 256 + (lo as usize);
                    self.emit_codeword(writer, codes, s);
                    proof {
                        assert(writer.bits() =~= old(writer).bits() + table_code_section(
                            syms,
                            codes@,
                            k as int + 1,
                        ));
                    }
                    k = k + 1;
                }
            },
        }
    }

    /// Emits the codeword of one symbol value, if the table holds one.
    fn emit_codeword(&self, writer: &mut BitWriter, codes: &Vec<Option<Vec<bool>>>, s: usize)
        requires
            old(writer).inv(),
        ensures
            final(writer).inv(),
            final(writer).bits() == old(writer).bits() + table_code(codes@, s as int),
    {
        if s < codes.len() {
            match &codes[s] {
                Some(code) => {
                    let mut j: usize = 0;
                    while j < code.len()
                        invariant
                            writer.inv(),
                            j <= code@.len(),
                            s < codes@.len(),
                            codes@[s as int] is Some,
                            code@ == codes@[s as int].unwrap()@,
                            writer.bits() == old(writer).bits() + code@.take(j as int),
                        decreases code@.len() - j,
                    {
                        writer.write_bit(code[j]);
                        proof {
                            assert(writer.bits() =~= old(writer).bits() + code@.take(j as int + 1));
                        }
                        j = j + 1;
                    }
                    proof {
                        assert(code@.take(code@.len() as int) =~= code@);
                    }
                },
                None => {
                    proof {
                        assert(writer.bits() =~= old(writer).bits() + table_code(
                            codes@,
                            s as int,
                        ));
                    }
                },
            }
        } else {
            proof {
                assert(writer.bits() =~= old(writer).bits() + table_code(codes@, s as int));
            }
        }
    }

    /// The code table retained from the last compression, if any.
    pub closed spec fn last_table(self) -> Option<Seq<Option<Vec<bool>>>> {
        match self.last_codes {
            Option::Some(t) => Option::Some(t@),
            Option::None => Option::None,
        }
    }

    /// Compresses the input into a self-describing stream: the mode bit, the
    /// serialized frequency table, and one codeword per input symbol, padded
    /// to whole bytes. The run's own state (counters, code table, header
    /// size) is rebuilt from scratch, so earlier calls cannot leak into this
    /// one. In byte mode, no byte value may occur more than 65535 times: the
    /// reserved 32-bit size class cannot be written.
    pub fn compress(&mut self, file_data: &[u8]) -> (r: Vec<u8>)
        requires
            old(self).inv(),
            old(self).mode() is OneByte ==> forall|s: int|
                0 <= s < 256 ==> #[trigger] count_sym(
                    syms_of(file_data@, old(self).mode()),
                    s,
                ) <= 65535,
        ensures
            final(self).inv(),
            final(self).mode() == old(self).mode(),
            final(self).freqs() == spec_freqs(file_data@, old(self).mode()),
            stream_bits(r@) == spec_compress_output(file_data@, old(self).mode()),
            r@.len() * 8 == spec_compress_output(file_data@, old(self).mode()).len(),
            final(self).spec_header_size() == bytes_for(
                1 + header_bits(
                    spec_freqs(file_data@, old(self).mode()),
                    old(self).mode(),
                ).len() as int,
            ),
            final(self).spec_header_size() <= r@.len(),
            final(self).last_table() matches Some(t) && table_matches(
                t,
                if has_symbols(file_data@, old(self).mode()) {
                    spec_code_map(file_data@, old(self).mode())
                } else {
                    Map::<Symbol, Seq<bool>>::empty()
                },
                old(self).mode(),
            ),
    {
        let ghost mode = old(self).mode();
        let ghost input = file_data@;
        let ghost fr = spec_freqs(input, mode);
        let ghost syms = syms_of(input, mode);

        self.one_byte_counters = vec![0u32; 256];
        self.two_bytes_counters = vec![0u32; 65536];
        self.last_codes = None;
        self.header_size = 0;

        let mut writer = BitWriter::new();
        self.count_frequencies(file_data);
        proof {
            assert(self.freqs() =~= fr);
        }

        match self.symbol {
            Symbol::OneByte(_) => writer.write_bit(false),
            Symbol::TwoBytes(_) => writer.write_bit(true),
        }
        proof {
            assert(writer.bits() =~= seq![mode is TwoBytes]);
        }

        self.write_frequencies_in_header(&mut writer);
        self.write_frequency_values_in_header(&mut writer);
        let ghost hdr = header_bits(fr, mode);
        proof {
            assert(writer.bits() =~= seq![mode is TwoBytes] + hdr);
            lemma_class_section_len(fr, 256);
            lemma_value_section_len(fr, 256);
            lemma_exist_section_len(fr, 65536);
            lemma_pair_value_section_len(fr, 65536);
            assert(writer.bits().len() + 8 <= usize::MAX);
        }
        self.header_size = writer.byte_len();
        proof {
            lemma_bytes_for_props(1 + hdr.len() as int);
        }

        let no_symbols: bool = match self.symbol {
            Symbol::OneByte(_) => file_data.len() == 0,
            Symbol::TwoBytes(_) => file_data.len() < 2,
        };
        if no_symbols {
            let empty_table = self.empty_code_table();
            self.last_codes = Some(empty_table);
            proof {
                assert(!has_symbols(input, mode));
                assert(writer.bits() =~= compress_bits(input, mode));
            }
            let r = writer.finish();
            proof {
                let total = compress_bits(input, mode).len() as int;
                lemma_bytes_for_props(total);
                assert(stream_bits(r@).len() == r@.len() * 8);
                assert(padding_of(total) >= 0);
                assert(zero_bits(padding_of(total)).len() == padding_of(total));
                assert(r@.len() * 8 == total + padding_of(total));
                assert(1 + hdr.len() as int == total);
            }
            return r;
        }

        proof {
            lemma_syms_in_range(input, mode);
            lemma_count_last_pos(syms);
            assert(self.freqs()[syms.last()] > 0);
        }
        let tree = self.build_huffman_tree();
        proof {
            lemma_leaves_mode_ok(fr, mode, n_syms(mode));
            let s0 = choose|s: int| 0 <= s < n_syms(mode) && #[trigger] fr[s] > 0;
            lemma_leaves_nonempty(fr, mode, n_syms(mode), s0);
            lemma_spec_merge_mode_ok(spec_leaves(fr, mode, n_syms(mode)), mode);
        }
        let codes = self.generate_huffman_codes(&tree);
        self.write_codes(file_data, &mut writer, &codes);
        proof {
            lemma_table_section_matches(
                syms,
                codes@,
                spec_code_map(input, mode),
                mode,
                syms.len() as int,
            );
            assert(writer.bits() =~= compress_bits(input, mode));
        }
        self.last_codes = Some(codes);
        let r = writer.finish();
        proof {
            let nh = 1 + hdr.len() as int;
            let total = compress_bits(input, mode).len() as int;
            lemma_bytes_for_props(nh);
            lemma_bytes_for_props(total);
            assert(nh <= total);
            assert(stream_bits(r@).len() == r@.len() * 8);
            assert(padding_of(total) >= 0);
            assert(zero_bits(padding_of(total)).len() == padding_of(total));
            assert(r@.len() * 8 == total + padding_of(total));
            assert(8 * (self.header_size as int) < nh + 8);
            assert(8 * (r@.len() as int) >= total);
        }
        r
    }

    /// Reads the serialized frequency table of the selected mode, leaving the
    /// reader at the first coded symbol bit. A truncated stream reads as zero
    /// frequencies.
    fn read_frequency_header(&mut self, reader: &mut BitReader)
        requires
            old(self).inv(),
            old(reader).inv(),
            old(reader).pos() == if old(reader).bits().len() >= 1 {
                1int
            } else {
                0int
            },
        ensures
            final(self).inv(),
            final(self).mode() == old(self).mode(),
            final(self).last_table() == old(self).last_table(),
            final(self).spec_header_size() == old(self).spec_header_size(),
            final(reader).inv(),
            final(reader).bits() == old(reader).bits(),
            final(self).freqs() == parsed_freqs(old(reader).bits(), old(self).mode()),
            final(reader).pos() == coded_start(old(reader).bits(), old(self).mode()),
    {
        match self.symbol {
            Symbol::OneByte(_) => self.read_frequency_header_on_one_byte(reader),
            Symbol::TwoBytes(_) => self.read_frequency_header_on_two_bytes(reader),
        }
    }

    fn read_frequency_header_on_one_byte(&mut self, reader: &mut BitReader)
        requires
            old(self).inv(),
            old(self).mode() is OneByte,
            old(reader).inv(),
            old(reader).pos() == if old(reader).bits().len() >= 1 {
                1int
            } else {
                0int
            },
        ensures
            final(self).inv(),
            final(self).mode() == old(self).mode(),
            final(self).last_table() == old(self).last_table(),
            final(self).spec_header_size() == old(self).spec_header_size(),
            final(reader).inv(),
            final(reader).bits() == old(reader).bits(),
            final(self).freqs() == Seq::new(256, |s: int| parsed_ob_freq(old(reader).bits(), s)),
            final(reader).pos() == (if ob_val_offset(old(reader).bits(), 256) <= old(
                reader,
            ).bits().len() {
                ob_val_offset(old(reader).bits(), 256)
            } else {
                old(reader).bits().len() as int
            }),
    {
        let ghost bits = reader.bits();
        let ghost len = bits.len() as int;

        let mut encodings: Vec<u8> = Vec::new();
        let mut s: usize = 0;
        while s < 256
            invariant
                reader.inv(),
                reader.bits() == bits,
                len == bits.len(),
                s <= 256,
                encodings@.len() == s,
                forall|t: int| 0 <= t < s ==> #[trigger] encodings@[t] as int == parsed_class(
                    bits,
                    t,
                ),
                reader.pos() == (if 1 + 2 * (s as int) <= len {
                    1 + 2 * (s as int)
                } else {
                    len
                }),
            decreases 256 - s,
        {
            let high_bit: bool = match reader.read_bit() {
                Some(b) => b,
                None => false,
            };
            let low_bit: bool = match reader.read_bit() {
                Some(b) => b,
                None => false,
            };
            let e: u8 = (if high_bit {
                2
            } else {
                0
            }) + (if low_bit {
                1
            } else {
                0
            });
            proof {
                assert(high_bit == bit_at(bits, 1 + 2 * (s as int)));
                assert(low_bit == bit_at(bits, 2 + 2 * (s as int)));
            }
            encodings.push(e);
            s = s + 1;
        }

        self.one_byte_counters = vec![0u32; 256];
        let mut s: usize = 0;
        while s < 256
            invariant
                self.inv(),
                self.symbol == old(self).symbol,
                self.two_bytes_counters@ == old(self).two_bytes_counters@,
                self.last_codes == old(self).last_codes,
                self.header_size == old(self).header_size,
                reader.inv(),
                reader.bits() == bits,
                len == bits.len(),
                s <= 256,
                encodings@.len() == 256,
                forall|t: int| 0 <= t < 256 ==> #[trigger] encodings@[t] as int == parsed_class(
                    bits,
                    t,
                ),
                forall|t: int| 0 <= t < s ==> #[trigger] self.one_byte_counters@[t]
                    == parsed_ob_freq(bits, t),
                reader.pos() == (if ob_val_offset(bits, s as int) <= len {
                    ob_val_offset(bits, s as int)
                } else {
                    len
                }),
            decreases 256 - s,
        {
            let e: u8 = encodings[s];
            let mut frequency: u32 = 0;
            let ghost pos0 = reader.pos();
            let ghost off = ob_val_offset(bits, s as int);
            let ghost c = parsed_class(bits, s as int);
            let ghost w = class_width(c);
            proof {
                assert(ob_val_offset(bits, s as int + 1) == off + w);
            }
            if e == 0b01 {
                frequency = match reader.read_n_bits(8) {
                    Some(v) => v,
                    None => 0,
                };
            } else if e == 0b10 {
                frequency = match reader.read_n_bits(16) {
                    Some(v) => v,
                    None => 0,
                };
            } else if e == 0b11 {
                frequency = match reader.read_n_bits(32) {
                    Some(v) => v,
                    None => 0,
                };
            }
            proof {
                lemma_ob_val_offset_lb(bits, s as int);
                if c == 0 {
                    assert(frequency == parsed_ob_freq(bits, s as int));
                } else if off + w <= len {
                    assert(pos0 == off);
                    assert(frequency as int == value_of_bits(bits.subrange(off, off + w)));
                    assert(read_val_at(bits, off, w) == frequency as int);
                    assert(frequency == parsed_ob_freq(bits, s as int));
                } else {
                    assert(frequency == 0);
                    assert(read_val_at(bits, off, w) == 0);
                    assert(frequency == parsed_ob_freq(bits, s as int));
                }
            }
            self.one_byte_counters[s] = frequency;
            s = s + 1;
        }
        proof {
            assert(self.freqs() =~= Seq::new(256, |t: int| parsed_ob_freq(bits, t)));
        }
    }

    fn read_frequency_header_on_two_bytes(&mut self, reader: &mut BitReader)
        requires
            old(self).inv(),
            old(self).mode() is TwoBytes,
            old(reader).inv(),
            old(reader).pos() == if old(reader).bits().len() >= 1 {
                1int
            } else {
                0int
            },
        ensures
            final(self).inv(),
            final(self).mode() == old(self).mode(),
            final(self).last_table() == old(self).last_table(),
            final(self).spec_header_size() == old(self).spec_header_size(),
            final(reader).inv(),
            final(reader).bits() == old(reader).bits(),
            final(self).freqs() == Seq::new(
                65536,
                |s: int| parsed_pair_freq(old(reader).bits(), s),
            ),
            final(reader).pos() == (if pair_val_offset(old(reader).bits(), 65536) <= old(
                reader,
            ).bits().len() {
                pair_val_offset(old(reader).bits(), 65536)
            } else {
                old(reader).bits().len() as int
            }),
    {
        let ghost bits = reader.bits();
        let ghost len = bits.len() as int;

        let mut exists_bits: Vec<bool> = Vec::new();
        let mut s: usize = 0;
        while s < 65536
            invariant
                reader.inv(),
                reader.bits() == bits,
                len == bits.len(),
                s <= 65536,
                exists_bits@.len() == s,
                forall|t: int| 0 <= t < s ==> #[trigger] exists_bits@[t] == parsed_exists(bits, t),
                reader.pos() == (if 1 + (s as int) <= len {
                    1 + (s as int)
                } else {
                    len
                }),
            decreases 65536 - s,
        {
            let b: bool = match reader.read_bit() {
                Some(b) => b,
                None => false,
            };
            proof {
                assert(b == parsed_exists(bits, s as int));
            }
            exists_bits.push(b);
            s = s + 1;
        }

        self.two_bytes_counters = vec![0u32; 65536];
        let mut s: usize = 0;
        while s < 65536
            invariant
                self.inv(),
                self.symbol == old(self).symbol,
                self.one_byte_counters@ == old(self).one_byte_counters@,
                self.last_codes == old(self).last_codes,
                self.header_size == old(self).header_size,
                reader.inv(),
                reader.bits() == bits,
                len == bits.len(),
                s <= 65536,
                exists_bits@.len() == 65536,
                forall|t: int| 0 <= t < 65536 ==> #[trigger] exists_bits@[t] == parsed_exists(
                    bits,
                    t,
                ),
                forall|t: int| 0 <= t < s ==> #[trigger] self.two_bytes_counters@[t]
                    == parsed_pair_freq(bits, t),
                forall|t: int| s <= t < 65536 ==> #[trigger] self.two_bytes_counters@[t] == 0,
                reader.pos() == (if pair_val_offset(bits, s as int) <= len {
                    pair_val_offset(bits, s as int)
                } else {
                    len
                }),
            decreases 65536 - s,
        {
            let ghost off = pair_val_offset(bits, s as int);
            if exists_bits[s] {
                let ghost pos0 = reader.pos();
                let size_bit: bool = match reader.read_bit() {
                    Some(b) => b,
                    None => false,
                };
                proof {
                    lemma_pair_val_offset_lb(bits, s as int);
                    if off < len {
                        assert(pos0 == off);
                        assert(size_bit == bits[off]);
                    } else {
                        assert(pos0 == len);
                        assert(!size_bit);
                    }
                    assert(size_bit == bit_at(bits, off));
                }
                let ghost w: int = if size_bit { 16 } else { 8 };
                let ghost pos1 = reader.pos();
                let frequency: u32 = if size_bit {
                    match reader.read_n_bits(16) {
                        Some(v) => v,
                        None => 0,
                    }
                } else {
                    match reader.read_n_bits(8) {
                        Some(v) => v,
                        None => 0,
                    }
                };
                proof {
                    lemma_pair_val_offset_lb(bits, s as int);
                    assert(pair_val_offset(bits, s as int + 1) == off + 1 + w);
                    if off + 1 + w <= len {
                        assert(off < len);
                        assert(pos1 == off + 1);
                        assert(frequency as int == value_of_bits(
                            bits.subrange(off + 1, off + 1 + w),
                        ));
                        assert(read_val_at(bits, off + 1, w) == frequency as int);
                    } else {
                        assert(frequency == 0);
                        assert(read_val_at(bits, off + 1, w) == 0);
                    }
                }
                self.two_bytes_counters[s] = frequency;
                proof {
                    assert(self.two_bytes_counters@[s as int] == parsed_pair_freq(
                        bits,
                        s as int,
                    ));
                }
            } else {
                proof {
                    assert(pair_val_offset(bits, s as int + 1) == off);
                    assert(self.two_bytes_counters@[s as int] == 0);
                    assert(parsed_pair_freq(bits, s as int) == 0);
                }
            }
            s = s + 1;
        }
        proof {
            assert(self.freqs() =~= Seq::new(65536, |t: int| parsed_pair_freq(bits, t)));
        }
    }

    /// The sum of all frequency counts: how many symbols the coded stream
    /// carries.
    fn calculate_total_symbols(&self) -> (r: u64)
        requires
            self.inv(),
        ensures
            r as int == sum_freqs(self.freqs(), n_syms(self.mode())),
    {
        let n: usize = match self.symbol {
            Symbol::OneByte(_) => 256,
            Symbol::TwoBytes(_) => 65536,
        };
        let mut sum: u64 = 0;
        let mut s: usize = 0;
        while s < n
            invariant
                self.inv(),
                n == n_syms(self.mode()),
                s <= n,
                sum as int == sum_freqs(self.freqs(), s as int),
                sum as int <= (s as int) * (u32::MAX as int),
            decreases n - s,
        {
            let c: u32 = match self.symbol {
                Symbol::OneByte(_) => self.one_byte_counters[s],
                Symbol::TwoBytes(_) => self.two_bytes_counters[s],
            };
            proof {
                assert(sum as int + c as int <= (s as int + 1) * (u32::MAX as int))
                    by (nonlinear_arith)
                    requires
                        sum as int <= (s as int) * (u32::MAX as int),
                        0 <= c as int <= u32::MAX as int,
                        s >= 0,
                ;
                assert((s as int + 1) * (u32::MAX as int) <= 65536 * (u32::MAX as int))
                    by (nonlinear_arith)
                    requires
                        s as int + 1 <= 65536,
                ;
            }
            sum = sum + c as u64;
            s = s + 1;
        }
        sum
    }

    /// Decompresses a stream this codec produced: reads the mode bit, rebuilds
    /// the frequency table and the identical tree, and walks the coded bits,
    /// emitting one symbol per leaf reached until the table's total count is
    /// out or a truncated stream ends early.
    pub fn decompress(&mut self, file_data: &[u8]) -> (r: Vec<u8>)
        requires
            old(self).inv(),
        ensures
            final(self).inv(),
            r@ == spec_decompress(file_data@),
    {
        let ghost bits = stream_bits(file_data@);
        let mut reader = BitReader::new(file_data);
        let mode_bit: bool = match reader.read_bit() {
            Some(b) => b,
            None => false,
        };
        proof {
            assert(mode_bit == bit_at(bits, 0));
        }
        self.symbol = if mode_bit {
            Symbol::TwoBytes(0)
        } else {
            Symbol::OneByte(0)
        };
        let ghost mode = self.mode();

        self.read_frequency_header(&mut reader);
        let ghost fr = parsed_freqs(bits, mode);

        let total: u64 = self.calculate_total_symbols();
        let mut out: Vec<u8> = Vec::new();
        if total == 0 {
            return out;
        }

        proof {
            lemma_sum_pos_exists(fr, n_syms(mode));
            lemma_leaves_mode_ok(fr, mode, n_syms(mode));
            let s0 = choose|s: int| 0 <= s < n_syms(mode) && #[trigger] fr[s] > 0;
            lemma_leaves_nonempty(fr, mode, n_syms(mode), s0);
            lemma_spec_merge_mode_ok(spec_leaves(fr, mode, n_syms(mode)), mode);
        }
        let tree = self.build_huffman_tree();
        let ghost start = reader.pos();
        proof {
            reader.lemma_pos_bounds();
        }

        let mut decoded: u64 = 0;
        let mut current: &Node = &tree;
        let ghost emitted: Seq<int> = Seq::empty();
        let mut emitted_tracker = Ghost(emitted);
        while decoded < total
            invariant_except_break
                reader.inv(),
                reader.bits() == bits,
                0 <= reader.pos() <= bits.len(),
                decoded <= total,
                current.wf(),
                tree_mode_ok(*current, mode),
                tree.wf(),
                tree_mode_ok(tree, mode),
                out@ == syms_to_bytes(emitted_tracker@, mode),
                emitted_tracker@ + spec_walk(
                    *current,
                    tree,
                    bits,
                    reader.pos(),
                    total as int - decoded as int,
                ) == spec_walk(tree, tree, bits, start, total as int),
            ensures
                out@ == syms_to_bytes(
                    spec_walk(tree, tree, bits, start, total as int),
                    mode,
                ),
            decreases total - decoded, bits.len() - reader.pos(),
        {
            if current.is_leaf() {
                let ghost prev = emitted_tracker@;
                match current.symbol {
                    Symbol::OneByte(b) => {
                        out.push(b);
                    },
                    Symbol::TwoBytes(v) => {
                        out.push((v >> 8u16) as u8);
                        out.push(v as u8);
                        proof {
                            lemma_u16_bytes(v);
                        }
                    },
                }
                proof {
                    emitted_tracker@ = prev.push(sym_value(current.symbol));
                    assert(out@ =~= syms_to_bytes(emitted_tracker@, mode)) by {
                        lemma_syms_to_bytes_push(prev, sym_value(current.symbol), mode);
                    }
                    assert(emitted_tracker@ + spec_walk(
                        tree,
                        tree,
                        bits,
                        reader.pos(),
                        total as int - decoded as int - 1,
                    ) =~= spec_walk(tree, tree, bits, start, total as int));
                }
                decoded = decoded + 1;
                current = &tree;
            } else {
                let bit: bool = match reader.read_bit() {
                    Some(b) => b,
                    None => {
                        proof {
                            assert(spec_walk(
                                *current,
                                tree,
                                bits,
                                reader.pos(),
                                total as int - decoded as int,
                            ) =~= Seq::<int>::empty());
                            assert(emitted_tracker@ =~= spec_walk(
                                tree,
                                tree,
                                bits,
                                start,
                                total as int,
                            ));
                        }
                        break ;
                    },
                };
                let ghost pos_before = reader.pos() - 1;
                proof {
                    reader.lemma_pos_bounds();
                }
                let next: &Node = if bit {
                    match &current.right {
                        Some(rc) => &**rc,
                        None => {
                            proof {
                                assert(false);
                            }
                            current
                        },
                    }
                } else {
                    match &current.left {
                        Some(lc) => &**lc,
                        None => {
                            proof {
                                assert(false);
                            }
                            current
                        },
                    }
                };
                proof {
                    assert(!current.spec_is_leaf());
                    assert(0 <= pos_before < bits.len());
                    assert(bits[pos_before] == bit);
                    assert(spec_walk(*current, tree, bits, pos_before, total as int - decoded as int)
                        == spec_walk(*next, tree, bits, pos_before + 1, total as int - decoded as int));
                }
                current = next;
            }
        }
        out
    }

    /// Derives the size summary of the last run: the header and the coded
    /// data tile the compressed buffer exactly whenever the header fits in
    /// it, which holds for every buffer `compress` returns.
    pub fn get_compression_stats(&self, original_size: usize, compressed_size: usize) -> (r:
        CompressionStats)
        ensures
            r.original_size == original_size,
            r.compressed_size == compressed_size,
            r.header_size as int == self.spec_header_size(),
            r.compressed_data_size == if compressed_size >= self.spec_header_size() {
                compressed_size - self.spec_header_size()
            } else {
                0int
            },
            r.space_saved == if original_size >= r.compressed_data_size {
                original_size - r.compressed_data_size
            } else {
                0int
            },
            self.spec_header_size() <= compressed_size ==> r.header_size
                + r.compressed_data_size == compressed_size,
    {
        let compressed_data_size: usize = if compressed_size >= self.header_size {
            compressed_size - self.header_size
        } else {
            0
        };
        let space_saved: usize = if original_size >= compressed_data_size {
            original_size - compressed_data_size
        } else {
            0
        };
        CompressionStats {
            original_size,
            compressed_size,
            header_size: self.header_size,
            compressed_data_size,
            space_saved,
        }
    }
    /// The diagnostic dump of the last compression's code table: one label
    /// and codeword string per coded symbol, in the order the labels sort.
    pub fn get_codes(&self) -> (r: Option<Vec<(String, String)>>)
        requires
            self.inv(),
        ensures
            match self.last_table() {
                Option::None => r is None,
                Option::Some(t) => r matches Some(v) && pair_views(v@) == dump_entries(
                    t,
                    self.mode(),
                ),
            },
    {
        let table = match &self.last_codes {
            None => {
                return None;
            },
            Some(table) => table,
        };
        let mut v: Vec<(String, String)> = Vec::new();
        match self.symbol {
            Symbol::OneByte(_) => {
                self.dump_segment_into(table, 32, 99, &mut v);
                self.dump_segment_into(table, 0, 32, &mut v);
                self.dump_segment_into(table, 127, 256, &mut v);
                self.dump_segment_into(table, 99, 127, &mut v);
            },
            Symbol::TwoBytes(_) => {
                self.dump_segment_into(table, 0, 65536, &mut v);
            },
        }
        proof {
            assert(pair_views(v@) =~= dump_entries(table@, self.mode()));
        }
        Some(v)
    }

    /// Appends the dump entries of the symbol values in `lo..hi`, in
    /// ascending value order.
    fn dump_segment_into(
        &self,
        table: &Vec<Option<Vec<bool>>>,
        lo: usize,
        hi: usize,
        v: &mut Vec<(String, String)>,
    )
        requires
            lo <= hi,
        ensures
            pair_views(final(v)@) == pair_views(old(v)@) + dump_segment(
                table@,
                self.mode(),
                lo as int,
                hi as int,
            ),
    {
        let ghost t = table@;
        let ghost mode = self.mode();
        let mut s: usize = lo;
        proof {
            assert(pair_views(v@) =~= pair_views(v@) + dump_segment(t, mode, lo as int, lo as int));
        }
        while s < hi
            invariant
                t == table@,
                mode == self.mode(),
                lo <= s <= hi,
                pair_views(v@) == pair_views(old(v)@) + dump_segment(t, mode, lo as int, s as int),
            decreases hi - s,
        {
            if s < table.len() {
                match &table[s] {
                    Some(code) => {
                        let label = self.symbol_label(s);
                        let mut code_str = String::new();
                        let mut j: usize = 0;
                        while j < code.len()
                            invariant
                                j <= code@.len(),
                                code_str@ == code_chars(code@).take(j as int),
                            decreases code@.len() - j,
                        {
                            if code[j] {
                                code_str.push('1');
                            } else {
                                code_str.push('0');
                            }
                            proof {
                                assert(code_str@ =~= code_chars(code@).take(j as int + 1));
                            }
                            j = j + 1;
                        }
                        proof {
                            assert(code_chars(code@).take(code@.len() as int) =~= code_chars(
                                code@,
                            ));
                        }
                        proof {
                            assert(t[s as int] == Some(*code));
                            assert(label@ == sym_label(mk_symbol(mode, s as int)));
                            assert(code_str@ == code_chars(code@));
                        }
                        let ghost v0 = v@;
                        v.push((label, code_str));
                        proof {
                            assert(dump_segment(t, mode, lo as int, s as int + 1) =~= dump_segment(
                                t,
                                mode,
                                lo as int,
                                s as int,
                            ).push((sym_label(mk_symbol(mode, s as int)), code_chars(code@))));
                            let target_seq = pair_views(old(v)@) + dump_segment(
                                t,
                                mode,
                                lo as int,
                                s as int + 1,
                            );
                            assert(pair_views(v0) == pair_views(old(v)@) + dump_segment(
                                t,
                                mode,
                                lo as int,
                                s as int,
                            ));
                            assert(pair_views(v@).len() == v@.len());
                            assert(pair_views(v0).len() == v0.len());
                            assert(pair_views(old(v)@).len() == old(v)@.len());
                            assert(target_seq.len() == pair_views(old(v)@).len() + dump_segment(
                                t,
                                mode,
                                lo as int,
                                s as int + 1,
                            ).len());
                            assert(v@.len() == target_seq.len());
                            assert forall|k: int| 0 <= k < v@.len() implies pair_views(v@)[k]
                                == target_seq[k] by {
                                assert(pair_views(v@)[k] == (v@[k].0@, v@[k].1@));
                                if k < v0.len() {
                                    assert(v@[k] == v0[k]);
                                    assert(pair_views(v0)[k] == (v0[k].0@, v0[k].1@));
                                    assert(pair_views(v@)[k] == pair_views(v0)[k]);
                                    assert(pair_views(v0)[k] == target_seq[k]);
                                } else {
                                    assert(k == v0.len());
                                    assert(v@[k].0@ == sym_label(mk_symbol(mode, s as int)));
                                    assert(v@[k].1@ == code_chars(code@));
                                    assert(target_seq[k] == dump_segment(
                                        t,
                                        mode,
                                        lo as int,
                                        s as int + 1,
                                    )[k - pair_views(old(v)@).len()]);
                                    assert(k - pair_views(old(v)@).len() == dump_segment(
                                        t,
                                        mode,
                                        lo as int,
                                        s as int,
                                    ).len());
                                    assert(target_seq[k] == (
                                        sym_label(mk_symbol(mode, s as int)),
                                        code_chars(code@),
                                    ));
                                }
                            };
                            assert(pair_views(v@) =~= target_seq);
                        }
                    },
                    None => {
                        proof {
                            assert(dump_segment(t, mode, lo as int, s as int + 1) =~= dump_segment(
                                t,
                                mode,
                                lo as int,
                                s as int,
                            ));
                        }
                    },
                }
            } else {
                proof {
                    assert(dump_segment(t, mode, lo as int, s as int + 1) =~= dump_segment(
                        t,
                        mode,
                        lo as int,
                        s as int,
                    ));
                }
            }
            s = s + 1;
        }
    }

    /// The dump label of the symbol with value `s` in the selected mode.
    fn symbol_label(&self, s: usize) -> (r: String)
        ensures
            r@ == sym_label(mk_symbol(self.mode(), s as int)),
    {
        let mut label = String::new();
        match self.symbol {
            Symbol::OneByte(_) => {
                let b: u8 = s as u8;
                if 32 <= b && b <= 126 {
                    label.push(b as char);
                    label.push(' ');
                    label.push('(');
                    label.push('0');
                    label.push('x');
                    label.push(hex_char_of(b / 16));
                    label.push(hex_char_of(b % 16));
                    label.push(')');
                    proof {
                        assert(label@ =~= sym_label(mk_symbol(self.mode(), s as int)));
                    }
                } else {
                    label.push('b');
                    label.push('y');
                    label.push('t');
                    label.push('e');
                    label.push(' ');
                    label.push('0');
                    label.push('x');
                    label.push(hex_char_of(b / 16));
                    label.push(hex_char_of(b % 16));
                    proof {
                        assert(label@ =~= sym_label(mk_symbol(self.mode(), s as int)));
                    }
                }
            },
            Symbol::TwoBytes(_) => {
                let w: u16 = s as u16;
                label.push('b');
                label.push('y');
                label.push('t');
                label.push('e');
                label.push('s');
                label.push(' ');
                label.push('0');
                label.push('x');
                label.push(hex_char_of((w / 4096) as u8));
                label.push(hex_char_of(((w / 256) % 16) as u8));
                label.push(hex_char_of(((w / 16) % 16) as u8));
                label.push(hex_char_of((w % 16) as u8));
                proof {
                    assert(label@ =~= sym_label(mk_symbol(self.mode(), s as int)));
                }
            },
        }
        label
    }
}

/// Earlier class sections are prefixes of later ones.
proof fn lemma_class_section_prefix(freqs: Seq<u32>, m: int, n: int)
    requires
        0 <= m <= n,
    ensures
        one_byte_class_section(freqs, n).take(2 * m) == one_byte_class_section(freqs, m),
    decreases n - m,
{
    lemma_class_section_len(freqs, m);
    lemma_class_section_len(freqs, n);
    if m < n {
        lemma_class_section_prefix(freqs, m, n - 1);
        lemma_class_section_len(freqs, n - 1);
        assert(one_byte_class_section(freqs, n).take(2 * m) =~= one_byte_class_section(
            freqs,
            n - 1,
        ).take(2 * m));
    } else {
        assert(one_byte_class_section(freqs, n).take(2 * m) =~= one_byte_class_section(freqs, m));
    }
}

/// The two class bits of symbol `s` stand at offsets `2s` and `2s + 1` of the
/// class section.
proof fn lemma_class_section_index(freqs: Seq<u32>, s: int, n: int)
    requires
        0 <= s < n,
    ensures
        one_byte_class_section(freqs, n)[2 * s] == (freq_class(freqs[s]) == 2 || freq_class(
            freqs[s],
        ) == 3),
        one_byte_class_section(freqs, n)[2 * s + 1] == (freq_class(freqs[s]) == 1 || freq_class(
            freqs[s],
        ) == 3),
{
    lemma_class_section_len(freqs, s);
    lemma_class_section_len(freqs, s + 1);
    lemma_class_section_len(freqs, n);
    lemma_class_section_prefix(freqs, s + 1, n);
    let sec = one_byte_class_section(freqs, s + 1);
    assert(sec == one_byte_class_section(freqs, s) + class_marker_bits(freq_class(freqs[s])));
    assert(sec[2 * s] == class_marker_bits(freq_class(freqs[s]))[0]);
    assert(sec[2 * s + 1] == class_marker_bits(freq_class(freqs[s]))[1]);
    assert(one_byte_class_section(freqs, n).take(2 * (s + 1))[2 * s] == one_byte_class_section(
        freqs,
        n,
    )[2 * s]);
    assert(one_byte_class_section(freqs, n).take(2 * (s + 1))[2 * s + 1]
        == one_byte_class_section(freqs, n)[2 * s + 1]);
}

/// Earlier value sections are prefixes of later ones, and symbol `s`'s value
/// bits stand right behind the value section of the first `s` symbols.
proof fn lemma_value_section_decompose(freqs: Seq<u32>, s: int, n: int)
    requires
        0 <= s < n,
    ensures
        one_byte_value_section(freqs, n).take(
            one_byte_value_section(freqs, s + 1).len() as int,
        ) == one_byte_value_section(freqs, s) + bits_of_value(
            freqs[s],
            class_width(freq_class(freqs[s])),
        ),
        one_byte_value_section(freqs, n).len() >= one_byte_value_section(freqs, s + 1).len(),
    decreases n - s,
{
    if s + 1 == n {
        assert(one_byte_value_section(freqs, n).take(one_byte_value_section(freqs, n).len() as int)
            =~= one_byte_value_section(freqs, n));
    } else {
        lemma_value_section_decompose(freqs, s, n - 1);
        let pre = one_byte_value_section(freqs, s + 1);
        assert(one_byte_value_section(freqs, n).take(pre.len() as int)
            =~= one_byte_value_section(freqs, n - 1).take(pre.len() as int));
    }
}

/// The decoder's reading of a byte-mode header recovers the frequency table
/// the encoder serialized, provided no count needs the reserved 32-bit class.
proof fn lemma_parse_header_one_byte(freqs: Seq<u32>, rest: Seq<bool>, bits: Seq<bool>)
    requires
        freqs.len() == 256,
        forall|s: int| 0 <= s < 256 ==> #[trigger] freqs[s] <= 65535,
        bits == seq![false] + header_bits(freqs, Symbol::OneByte(0)) + rest,
    ensures
        forall|s: int| 0 <= s < 256 ==> #[trigger] parsed_ob_freq(bits, s) == freqs[s],
        forall|s: int|
            0 <= s <= 256 ==> #[trigger] ob_val_offset(bits, s) == 513 + one_byte_value_section(
                freqs,
                s,
            ).len(),
{
    let mode = Symbol::OneByte(0);
    let hdr = header_bits(freqs, mode);
    let cs = one_byte_class_section(freqs, 256);
    let vs = one_byte_value_section(freqs, 256);
    lemma_class_section_len(freqs, 256);
    lemma_value_section_len(freqs, 256);

    // Class bits are read back exactly.
    assert forall|s: int| 0 <= s < 256 implies #[trigger] parsed_class(bits, s) == freq_class(
        freqs[s],
    ) by {
        lemma_class_section_index(freqs, s, 256);
        assert(bits[1 + 2 * s] == cs[2 * s]);
        assert(bits[2 + 2 * s] == cs[2 * s + 1]);
        assert(bit_at(bits, 1 + 2 * s) == cs[2 * s]);
        assert(bit_at(bits, 2 + 2 * s) == cs[2 * s + 1]);
    };

    // Offsets line up with the written layout, and each value reads back.
    assert forall|s: int|
        0 <= s <= 256 implies #[trigger] ob_val_offset(bits, s) == 513 + one_byte_value_section(
        freqs,
        s,
    ).len() by {
        lemma_offsets_align(freqs, bits, s);
    };

    assert forall|s: int| 0 <= s < 256 implies #[trigger] parsed_ob_freq(bits, s) == freqs[s] by {
        let c = freq_class(freqs[s]);
        lemma_offsets_align(freqs, bits, s);
        if c == 0 {
        } else {
            let w = class_width(c);
            let off = ob_val_offset(bits, s);
            lemma_value_section_decompose(freqs, s, 256);
            lemma_value_section_len(freqs, s);
            lemma_value_section_len(freqs, s + 1);
            lemma_bits_of_value_len(freqs[s], w);
            assert(off + w <= 513 + vs.len());
            assert(bits.subrange(off, off + w) =~= bits_of_value(freqs[s], w)) by {
                assert forall|j: int| 0 <= j < w implies bits[off + j] == bits_of_value(
                    freqs[s],
                    w,
                )[j] by {
                    let pre_len = one_byte_value_section(freqs, s).len() as int;
                    assert(bits[off + j] == vs[pre_len + j]);
                    assert(vs.take(one_byte_value_section(freqs, s + 1).len() as int)[pre_len + j]
                        == vs[pre_len + j]);
                    assert((one_byte_value_section(freqs, s) + bits_of_value(freqs[s], w))[pre_len
                        + j] == bits_of_value(freqs[s], w)[j]);
                };
            };
            let f = freqs[s];
            let ghost wu = w as u32;
            assert((f as u64) < (1u64 << wu)) by (bit_vector)
                requires
                    f <= 65535,
                    wu == 8 && f <= 255 || wu == 16,
            ;
            lemma_value_of_bits_of_value(f, w);
        }
    };
}

/// Parsing offsets track the written value-section layout, symbol by symbol.
proof fn lemma_offsets_align(freqs: Seq<u32>, bits: Seq<bool>, s: int)
    requires
        freqs.len() == 256,
        forall|s: int| 0 <= s < 256 ==> #[trigger] freqs[s] <= 65535,
        bits == seq![false] + header_bits(freqs, Symbol::OneByte(0)) + Seq::<bool>::empty()
            || exists|rest: Seq<bool>|
            bits == seq![false] + header_bits(freqs, Symbol::OneByte(0)) + rest,
        0 <= s <= 256,
    ensures
        ob_val_offset(bits, s) == 513 + one_byte_value_section(freqs, s).len(),
    decreases s,
{
    let cs = one_byte_class_section(freqs, 256);
    lemma_class_section_len(freqs, 256);
    if s > 0 {
        lemma_offsets_align(freqs, bits, s - 1);
        let rest = choose|rest: Seq<bool>|
            bits == seq![false] + header_bits(freqs, Symbol::OneByte(0)) + rest;
        lemma_class_section_index(freqs, s - 1, 256);
        assert(bits[1 + 2 * (s - 1)] == cs[2 * (s - 1)]);
        assert(bits[2 + 2 * (s - 1)] == cs[2 * (s - 1) + 1]);
        assert(parsed_class(bits, s - 1) == freq_class(freqs[s - 1]));
        lemma_bits_of_value_len(freqs[s - 1], class_width(freq_class(freqs[s - 1])));
    }
}

/// Earlier existence sections are prefixes of later ones.
proof fn lemma_exist_section_prefix(freqs: Seq<u32>, m: int, n: int)
    requires
        0 <= m <= n,
    ensures
        pair_exist_section(freqs, n).take(m) == pair_exist_section(freqs, m),
    decreases n - m,
{
    lemma_exist_section_len(freqs, m);
    lemma_exist_section_len(freqs, n);
    if m < n {
        lemma_exist_section_prefix(freqs, m, n - 1);
        lemma_exist_section_len(freqs, n - 1);
        assert(pair_exist_section(freqs, n).take(m) =~= pair_exist_section(freqs, n - 1).take(m));
    } else {
        assert(pair_exist_section(freqs, n).take(m) =~= pair_exist_section(freqs, m));
    }
}

/// The existence bit of pair symbol `s` stands at offset `s`.
proof fn lemma_exist_section_index(freqs: Seq<u32>, s: int, n: int)
    requires
        0 <= s < n,
    ensures
        pair_exist_section(freqs, n)[s] == (freqs[s] != 0),
{
    lemma_exist_section_len(freqs, s);
    lemma_exist_section_len(freqs, s + 1);
    lemma_exist_section_len(freqs, n);
    lemma_exist_section_prefix(freqs, s + 1, n);
    let sec = pair_exist_section(freqs, s + 1);
    assert(sec[s] == (freqs[s] != 0));
    assert(pair_exist_section(freqs, n).take(s + 1)[s] == pair_exist_section(freqs, n)[s]);
}

/// Earlier pair value sections are prefixes of later ones, and symbol `s`'s
/// size bit and value stand right behind the section of the first `s`.
proof fn lemma_pair_value_decompose(freqs: Seq<u32>, s: int, n: int)
    requires
        0 <= s < n,
    ensures
        pair_value_section(freqs, n).take(pair_value_section(freqs, s + 1).len() as int)
            == pair_value_section(freqs, s) + pair_value_bits(freqs[s]),
        pair_value_section(freqs, n).len() >= pair_value_section(freqs, s + 1).len(),
    decreases n - s,
{
    if s + 1 == n {
        assert(pair_value_section(freqs, n).take(pair_value_section(freqs, n).len() as int)
            =~= pair_value_section(freqs, n));
    } else {
        lemma_pair_value_decompose(freqs, s, n - 1);
        let pre = pair_value_section(freqs, s + 1);
        assert(pair_value_section(freqs, n).take(pre.len() as int) =~= pair_value_section(
            freqs,
            n - 1,
        ).take(pre.len() as int));
    }
}

/// Parsing offsets track the written pair value-section layout.
proof fn lemma_pair_offsets_align(freqs: Seq<u32>, bits: Seq<bool>, s: int)
    requires
        freqs.len() == 65536,
        forall|v: int| 0 <= v < 65536 ==> #[trigger] freqs[v] <= 65535,
        exists|rest: Seq<bool>|
            bits == seq![true] + header_bits(freqs, Symbol::TwoBytes(0)) + rest,
        0 <= s <= 65536,
    ensures
        pair_val_offset(bits, s) == 65537 + pair_value_section(freqs, s).len(),
    decreases s,
{
    let es = pair_exist_section(freqs, 65536);
    let vs = pair_value_section(freqs, 65536);
    lemma_exist_section_len(freqs, 65536);
    lemma_pair_value_section_len(freqs, 65536);
    if s > 0 {
        lemma_pair_offsets_align(freqs, bits, s - 1);
        let rest = choose|rest: Seq<bool>|
            bits == seq![true] + header_bits(freqs, Symbol::TwoBytes(0)) + rest;
        lemma_exist_section_index(freqs, s - 1, 65536);
        assert(bits[1 + (s - 1)] == es[s - 1]);
        assert(parsed_exists(bits, s - 1) == (freqs[s - 1] != 0));
        let f = freqs[s - 1];
        lemma_pair_value_section_len(freqs, s - 1);
        lemma_pair_value_section_len(freqs, s);
        if f != 0 {
            let off = pair_val_offset(bits, s - 1);
            lemma_pair_value_decompose(freqs, s - 1, 65536);
            let pre_len = pair_value_section(freqs, s - 1).len() as int;
            lemma_bits_of_value_len(f, 8);
            lemma_bits_of_value_len(f, 16);
            assert(bits[off] == vs[pre_len]);
            assert(vs.take(pair_value_section(freqs, s).len() as int)[pre_len] == vs[pre_len]);
            assert((pair_value_section(freqs, s - 1) + pair_value_bits(f))[pre_len]
                == pair_value_bits(f)[0]);
            assert(pair_value_bits(f)[0] == (f > 255));
            assert(bit_at(bits, off) == (f > 255));
        }
    }
}

/// The decoder's reading of a pair-mode header recovers the frequency table
/// the encoder serialized, provided every count fits the 16-bit tier.
proof fn lemma_parse_header_pair(freqs: Seq<u32>, rest: Seq<bool>, bits: Seq<bool>)
    requires
        freqs.len() == 65536,
        forall|v: int| 0 <= v < 65536 ==> #[trigger] freqs[v] <= 65535,
        bits == seq![true] + header_bits(freqs, Symbol::TwoBytes(0)) + rest,
    ensures
        forall|s: int| 0 <= s < 65536 ==> #[trigger] parsed_pair_freq(bits, s) == freqs[s],
        forall|s: int|
            0 <= s <= 65536 ==> #[trigger] pair_val_offset(bits, s) == 65537 + pair_value_section(
                freqs,
                s,
            ).len(),
{
    let es = pair_exist_section(freqs, 65536);
    let vs = pair_value_section(freqs, 65536);
    lemma_exist_section_len(freqs, 65536);
    lemma_pair_value_section_len(freqs, 65536);

    assert forall|s: int|
        0 <= s <= 65536 implies #[trigger] pair_val_offset(bits, s) == 65537 + pair_value_section(
        freqs,
        s,
    ).len() by {
        lemma_pair_offsets_align(freqs, bits, s);
    };

    assert forall|s: int| 0 <= s < 65536 implies #[trigger] parsed_pair_freq(bits, s)
        == freqs[s] by {
        lemma_exist_section_index(freqs, s, 65536);
        assert(bits[1 + s] == es[s]);
        assert(parsed_exists(bits, s) == (freqs[s] != 0));
        let f = freqs[s];
        if f != 0 {
            lemma_pair_offsets_align(freqs, bits, s);
            let off = pair_val_offset(bits, s);
            lemma_pair_value_decompose(freqs, s, 65536);
            lemma_pair_value_section_len(freqs, s);
            lemma_pair_value_section_len(freqs, s + 1);
            let pre_len = pair_value_section(freqs, s).len() as int;
            let w: int = if f > 255 {
                16
            } else {
                8
            };
            lemma_bits_of_value_len(f, w);
            assert(bits[off] == vs[pre_len]);
            assert(vs.take(pair_value_section(freqs, s + 1).len() as int)[pre_len]
                == vs[pre_len]);
            assert((pair_value_section(freqs, s) + pair_value_bits(f))[pre_len]
                == pair_value_bits(f)[0]);
            assert(pair_value_bits(f)[0] == (f > 255));
            assert(bit_at(bits, off) == (f > 255));
            assert(bits.subrange(off + 1, off + 1 + w) =~= bits_of_value(f, w)) by {
                assert forall|j: int| 0 <= j < w implies bits[off + 1 + j] == bits_of_value(
                    f,
                    w,
                )[j] by {
                    assert(bits[off + 1 + j] == vs[pre_len + 1 + j]);
                    assert(vs.take(pair_value_section(freqs, s + 1).len() as int)[pre_len + 1 + j]
                        == vs[pre_len + 1 + j]);
                    assert((pair_value_section(freqs, s) + pair_value_bits(f))[pre_len + 1 + j]
                        == pair_value_bits(f)[1 + j]);
                    assert(pair_value_bits(f)[1 + j] == bits_of_value(f, w)[j]);
                };
            };
            let ghost wu = w as u32;
            assert((f as u64) < (1u64 << wu)) by (bit_vector)
                requires
                    f <= 65535,
                    wu == 8 && f <= 255 || wu == 16,
            ;
            lemma_value_of_bits_of_value(f, w);
        }
    };
}

/// Adding one occurrence of symbol `v` raises the total by one.
proof fn lemma_sum_freqs_step(fr: Seq<u32>, fr2: Seq<u32>, n: int, v: int, k: int)
    requires
        0 <= v < n,
        k <= n,
        fr.len() == n,
        fr2.len() == n,
        forall|s: int|
            0 <= s < n ==> #[trigger] fr[s] as int == fr2[s] + (if s == v {
                1int
            } else {
                0int
            }),
    ensures
        sum_freqs(fr, k) == sum_freqs(fr2, k) + (if v < k {
            1int
        } else {
            0int
        }),
    decreases k,
{
    if k > 0 {
        lemma_sum_freqs_step(fr, fr2, n, v, k - 1);
    }
}

/// The frequency totals of a symbol sequence add up to its length.
proof fn lemma_sum_counts(syms: Seq<int>, fr: Seq<u32>, n: int)
    requires
        fr.len() == n,
        forall|s: int| 0 <= s < n ==> #[trigger] fr[s] as int == count_sym(syms, s),
        forall|j: int| 0 <= j < syms.len() ==> 0 <= #[trigger] syms[j] < n,
    ensures
        sum_freqs(fr, n) == syms.len(),
    decreases syms.len(),
{
    if syms.len() == 0 {
        assert forall|k: int| 0 <= k <= n implies sum_freqs(fr, k) == 0 by {
            lemma_sum_freqs_zero(fr, k);
        };
    } else {
        let prior = syms.drop_last();
        let v = syms.last();
        let fr2 = Seq::new(n as nat, |s: int| count_sym(prior, s) as u32);
        assert forall|s: int| 0 <= s < n implies #[trigger] fr2[s] as int == count_sym(
            prior,
            s,
        ) by {
            lemma_count_nonneg(prior, s);
            assert(count_sym(syms, s) == count_sym(prior, s) + (if s == v {
                1int
            } else {
                0int
            }));
            assert(count_sym(prior, s) <= fr[s] as int);
        };
        lemma_sum_counts(prior, fr2, n);
        lemma_sum_freqs_step(fr, fr2, n, v, n);
    }
}

/// An empty sequence has zero counts everywhere.
proof fn lemma_sum_freqs_zero(fr: Seq<u32>, k: int)
    requires
        forall|s: int| 0 <= s < k ==> #[trigger] fr[s] == 0,
    ensures
        sum_freqs(fr, k) == 0,
    decreases k,
{
    if k > 0 {
        lemma_sum_freqs_zero(fr, k - 1);
    }
}

/// Which symbols a subtree's code table covers does not depend on the path
/// prefix carried into it.
proof fn lemma_codes_dom_prefix(t: Node, p1: Seq<bool>, p2: Seq<bool>)
    ensures
        spec_codes(t, p1).dom() =~= spec_codes(t, p2).dom(),
    decreases t,
{
    if !t.spec_is_leaf() {
        match (t.left, t.right) {
            (Option::Some(l), Option::Some(r)) => {
                lemma_codes_dom_prefix(*l, p1.push(false), p2.push(false));
                lemma_codes_dom_prefix(*r, p1.push(true), p2.push(true));
            },
            (Option::Some(l), Option::None) => {
                lemma_codes_dom_prefix(*l, p1.push(false), p2.push(false));
            },
            (Option::None, Option::Some(r)) => {
                lemma_codes_dom_prefix(*r, p1.push(true), p2.push(true));
            },
            (Option::None, Option::None) => {
            },
        }
    }
}

/// The symbols covered by the trees in a work list, taken together.
spec fn doms_union(nodes: Seq<Node>, k: int) -> Set<Symbol>
    decreases k,
{
    if k <= 0 {
        Set::empty()
    } else {
        doms_union(nodes, k - 1).union(spec_codes(nodes[k - 1], Seq::empty()).dom())
    }
}

/// The union over a list depends only on the listed trees.
proof fn lemma_doms_union_congruent(a: Seq<Node>, b: Seq<Node>, k: int)
    requires
        forall|j: int| 0 <= j < k ==> a[j] == b[j],
    ensures
        doms_union(a, k) == doms_union(b, k),
    decreases k,
{
    if k > 0 {
        lemma_doms_union_congruent(a, b, k - 1);
    }
}

/// Removing one tree from the list removes exactly its contribution.
proof fn lemma_doms_union_remove(nodes: Seq<Node>, i: int)
    requires
        0 <= i < nodes.len(),
    ensures
        doms_union(nodes, nodes.len() as int) =~= doms_union(
            nodes.remove(i),
            nodes.len() - 1,
        ).union(spec_codes(nodes[i], Seq::empty()).dom()),
    decreases nodes.len(),
{
    let n = nodes.len() as int;
    if i == n - 1 {
        lemma_doms_union_congruent(nodes.remove(i), nodes, n - 1);
    } else {
        let shorter = nodes.take(n - 1);
        lemma_doms_union_congruent(shorter, nodes, n - 1);
        lemma_doms_union_remove(shorter, i);
        lemma_doms_union_congruent(shorter.remove(i), nodes.remove(i), n - 2);
        assert(nodes.remove(i)[n - 2] == nodes[n - 1]);
    }
}

/// Merging the work list covers exactly the symbols its trees cover.
proof fn lemma_merge_dom(nodes: Seq<Node>, prefix: Seq<bool>)
    requires
        nodes.len() >= 1,
    ensures
        spec_codes(spec_merge(nodes), prefix).dom() =~= doms_union(nodes, nodes.len() as int),
    decreases nodes.len(),
{
    if nodes.len() == 1 {
        lemma_codes_dom_prefix(nodes[0], prefix, Seq::empty());
        assert(doms_union(nodes, 0) =~= Set::<Symbol>::empty());
        assert(doms_union(nodes, 1) =~= spec_codes(nodes[0], Seq::empty()).dom());
        assert(spec_merge(nodes) == nodes[0]);
    } else {
        let i1 = min_node_idx(nodes, 0);
        lemma_min_node_idx_in_range(nodes, 0);
        let rest1 = nodes.remove(i1);
        lemma_min_node_idx_in_range(rest1, 0);
        let i2 = min_node_idx(rest1, 0);
        let rest2 = rest1.remove(i2);
        let parent = spec_parent(nodes[i1], rest1[i2]);
        let next = rest2.push(parent);
        lemma_merge_dom(next, prefix);
        assert(spec_merge(nodes) == spec_merge(next));
        // The parent covers exactly what its two children cover.
        lemma_codes_dom_prefix(nodes[i1], Seq::empty().push(false), Seq::empty());
        lemma_codes_dom_prefix(rest1[i2], Seq::empty().push(true), Seq::empty());
        assert(!parent.spec_is_leaf());
        assert(spec_codes(parent, Seq::empty()) == spec_codes(
            nodes[i1],
            Seq::empty().push(false),
        ).union_prefer_right(spec_codes(rest1[i2], Seq::empty().push(true))));
        assert(spec_codes(parent, Seq::empty()).dom() =~= spec_codes(
            nodes[i1],
            Seq::empty(),
        ).dom().union(spec_codes(rest1[i2], Seq::empty()).dom()));
        // Pushing the parent contributes that union.
        lemma_doms_union_congruent(next, rest2, next.len() - 1);
        assert(next[next.len() - 1] == parent);
        assert(doms_union(next, next.len() as int) =~= doms_union(
            rest2,
            rest2.len() as int,
        ).union(spec_codes(parent, Seq::empty()).dom()));
        lemma_doms_union_remove(nodes, i1);
        lemma_doms_union_remove(rest1, i2);
        assert(doms_union(next, next.len() as int) =~= doms_union(nodes, nodes.len() as int));
        assert(spec_codes(spec_merge(nodes), prefix).dom() =~= doms_union(
            nodes,
            nodes.len() as int,
        ));
    }
}

/// The work list of leaves covers exactly the symbols with positive counts.
proof fn lemma_leaves_dom(freqs: Seq<u32>, mode: Symbol, n: int)
    requires
        n >= 0,
    ensures
        forall|s: Symbol|
            doms_union(spec_leaves(freqs, mode, n), spec_leaves(freqs, mode, n).len() as int)
                .contains(s) <==> exists|v: int|
                0 <= v < n && freqs[v] > 0 && s == #[trigger] mk_symbol(mode, v),
    decreases n,
{
    if n > 0 {
        lemma_leaves_dom(freqs, mode, n - 1);
        let prev = spec_leaves(freqs, mode, n - 1);
        let cur = spec_leaves(freqs, mode, n);
        lemma_doms_union_congruent(prev, cur, prev.len() as int);
        assert forall|s: Symbol|
            doms_union(cur, cur.len() as int).contains(s) <==> exists|v: int|
                0 <= v < n && freqs[v] > 0 && s == #[trigger] mk_symbol(mode, v) by {
            if freqs[n - 1] > 0 {
                let leaf = cur[cur.len() - 1];
                assert(spec_codes(leaf, Seq::empty()).dom() =~= Set::empty().insert(
                    mk_symbol(mode, n - 1),
                ));
                if doms_union(cur, cur.len() as int).contains(s) {
                    if doms_union(prev, prev.len() as int).contains(s) {
                        let v = choose|v: int|
                            0 <= v < n - 1 && freqs[v] > 0 && s == #[trigger] mk_symbol(mode, v);
                        assert(0 <= v < n && freqs[v] > 0 && s == mk_symbol(mode, v));
                    } else {
                        assert(s == mk_symbol(mode, n - 1));
                    }
                }
                if exists|v: int| 0 <= v < n && freqs[v] > 0 && s == #[trigger] mk_symbol(mode, v) {
                    let v = choose|v: int|
                        0 <= v < n && freqs[v] > 0 && s == #[trigger] mk_symbol(mode, v);
                    if v == n - 1 {
                        assert(doms_union(cur, cur.len() as int).contains(s));
                    } else {
                        assert(doms_union(prev, prev.len() as int).contains(s));
                    }
                }
            } else {
                assert(cur == prev);
            }
        };
    }
}

/// Walking one codeword's bits from the subtree it addresses reaches its
/// leaf, emits the symbol, and resumes at the root right behind the codeword.
proof fn lemma_walk_code(
    t: Node,
    root: Node,
    bits: Seq<bool>,
    pos: int,
    rem: int,
    sym: Symbol,
    prefix: Seq<bool>,
)
    requires
        t.wf(),
        rem >= 1,
        spec_codes(t, prefix).dom().contains(sym),
        pos >= 0,
        pos + spec_codes(t, prefix)[sym].len() - prefix.len() <= bits.len(),
        forall|j: int|
            0 <= j < spec_codes(t, prefix)[sym].len() - prefix.len() ==> #[trigger] bits[pos + j]
                == spec_codes(t, prefix)[sym][prefix.len() + j],
    ensures
        spec_walk(t, root, bits, pos, rem) == seq![sym_value(sym)] + spec_walk(
            root,
            root,
            bits,
            pos + spec_codes(t, prefix)[sym].len() - prefix.len(),
            rem - 1,
        ),
    decreases t,
{
    let code = spec_codes(t, prefix)[sym];
    lemma_codes_extend(t, prefix, sym);
    if t.spec_is_leaf() {
        assert(sym == t.symbol);
        assert(code == prefix);
    } else {
        match (t.left, t.right) {
            (Option::Some(l), Option::Some(r)) => {
                let ml = spec_codes(*l, prefix.push(false));
                let mr = spec_codes(*r, prefix.push(true));
                let p = prefix.len() as int;
                if mr.dom().contains(sym) {
                    lemma_codes_extend(*r, prefix.push(true), sym);
                    assert(code == mr[sym]);
                    assert(code.subrange(0, p + 1) == prefix.push(true));
                    assert(code.subrange(0, p + 1)[p] == code[p]);
                    assert(code[p] == true);
                    assert(bits[pos + 0] == code[p + 0]);
                    assert(pos < bits.len());
                    assert forall|j: int|
                        0 <= j < mr[sym].len() - prefix.push(true).len() implies #[trigger] bits[
                        pos + 1 + j] == mr[sym][prefix.push(true).len() + j] by {
                        assert(bits[pos + (j + 1)] == code[p + (j + 1)]);
                    };
                    lemma_walk_code(*r, root, bits, pos + 1, rem, sym, prefix.push(true));
                    assert(spec_walk(t, root, bits, pos, rem) == spec_walk(
                        *r,
                        root,
                        bits,
                        pos + 1,
                        rem,
                    ));
                } else {
                    assert(ml.dom().contains(sym));
                    lemma_codes_extend(*l, prefix.push(false), sym);
                    assert(code == ml[sym]);
                    assert(code.subrange(0, p + 1) == prefix.push(false));
                    assert(code.subrange(0, p + 1)[p] == code[p]);
                    assert(code[p] == false);
                    assert(bits[pos + 0] == code[p + 0]);
                    assert(pos < bits.len());
                    assert forall|j: int|
                        0 <= j < ml[sym].len() - prefix.push(false).len() implies #[trigger] bits[
                        pos + 1 + j] == ml[sym][prefix.push(false).len() + j] by {
                        assert(bits[pos + (j + 1)] == code[p + (j + 1)]);
                    };
                    lemma_walk_code(*l, root, bits, pos + 1, rem, sym, prefix.push(false));
                    assert(spec_walk(t, root, bits, pos, rem) == spec_walk(
                        *l,
                        root,
                        bits,
                        pos + 1,
                        rem,
                    ));
                }
            },
            _ => {
                assert(false);
            },
        }
    }
}

/// Earlier coded sections are prefixes of later ones.
proof fn lemma_map_section_prefix(
    syms: Seq<int>,
    m: Map<Symbol, Seq<bool>>,
    mode: Symbol,
    a: int,
    b: int,
)
    requires
        0 <= a <= b,
    ensures
        map_code_section(syms, m, mode, b).take(map_code_section(syms, m, mode, a).len() as int)
            == map_code_section(syms, m, mode, a),
        map_code_section(syms, m, mode, b).len() >= map_code_section(syms, m, mode, a).len(),
    decreases b - a,
{
    if a < b {
        lemma_map_section_prefix(syms, m, mode, a, b - 1);
        assert(map_code_section(syms, m, mode, b).take(
            map_code_section(syms, m, mode, a).len() as int,
        ) =~= map_code_section(syms, m, mode, b - 1).take(
            map_code_section(syms, m, mode, a).len() as int,
        ));
    } else {
        assert(map_code_section(syms, m, mode, b).take(
            map_code_section(syms, m, mode, a).len() as int,
        ) =~= map_code_section(syms, m, mode, a));
    }
}

/// Every symbol value of a sequence occurs in it.
proof fn lemma_count_at_index(syms: Seq<int>, j: int)
    requires
        0 <= j < syms.len(),
    ensures
        count_sym(syms, syms[j]) >= 1,
    decreases syms.len(),
{
    if j == syms.len() - 1 {
        lemma_count_nonneg(syms.drop_last(), syms.last());
    } else {
        lemma_count_at_index(syms.drop_last(), j);
        assert(syms.drop_last()[j] == syms[j]);
    }
}

/// Walking the coded stream of the remaining symbols emits exactly them.
proof fn lemma_walk_stream(
    tree: Node,
    bits: Seq<bool>,
    base: int,
    syms: Seq<int>,
    m: Map<Symbol, Seq<bool>>,
    mode: Symbol,
    k: int,
)
    requires
        tree.wf(),
        m == spec_codes(tree, Seq::empty()),
        0 <= k <= syms.len(),
        forall|j: int|
            0 <= j < syms.len() ==> m.dom().contains(mk_symbol(mode, #[trigger] syms[j])),
        forall|j: int| 0 <= j < syms.len() ==> 0 <= #[trigger] syms[j] < n_syms(mode),
        base >= 0,
        base + map_code_section(syms, m, mode, syms.len() as int).len() <= bits.len(),
        forall|i: int|
            0 <= i < map_code_section(syms, m, mode, syms.len() as int).len() ==> #[trigger] bits[
            base + i] == map_code_section(syms, m, mode, syms.len() as int)[i],
    ensures
        spec_walk(
            tree,
            tree,
            bits,
            base + map_code_section(syms, m, mode, k).len(),
            syms.len() - k,
        ) == syms.subrange(k, syms.len() as int),
    decreases syms.len() - k,
{
    let full = map_code_section(syms, m, mode, syms.len() as int);
    if k == syms.len() {
        lemma_map_section_prefix(syms, m, mode, k, syms.len() as int);
        assert(syms.subrange(k, syms.len() as int) =~= Seq::<int>::empty());
    } else {
        let sym = mk_symbol(mode, syms[k]);
        let sec_k = map_code_section(syms, m, mode, k);
        let sec_k1 = map_code_section(syms, m, mode, k + 1);
        let code = m[sym];
        assert(sec_k1 == sec_k + code);
        lemma_map_section_prefix(syms, m, mode, k, syms.len() as int);
        lemma_map_section_prefix(syms, m, mode, k + 1, syms.len() as int);
        lemma_codes_extend(tree, Seq::empty(), sym);
        assert forall|j: int| 0 <= j < code.len() implies #[trigger] bits[base + sec_k.len() + j]
            == code[j] by {
            assert(bits[base + (sec_k.len() + j)] == full[sec_k.len() + j]);
            assert(full.take(sec_k1.len() as int)[sec_k.len() + j] == full[sec_k.len() + j]);
            assert((sec_k + code)[sec_k.len() + j] == code[j]);
        };
        assert(code.subrange(0, 0) =~= Seq::<bool>::empty());
        lemma_walk_code(
            tree,
            tree,
            bits,
            base + sec_k.len(),
            syms.len() - k,
            sym,
            Seq::empty(),
        );
        lemma_walk_stream(tree, bits, base, syms, m, mode, k + 1);
        assert(sym_value(sym) == syms[k]);
        assert(seq![syms[k]] + syms.subrange(k + 1, syms.len() as int) =~= syms.subrange(
            k,
            syms.len() as int,
        ));
    }
}

/// The leaf list depends only on the mode's variant, not on the value the
/// mode symbol happens to carry.
proof fn lemma_leaves_mode_value(freqs: Seq<u32>, m1: Symbol, m2: Symbol, n: int)
    requires
        sym_in_mode(m1, m2),
    ensures
        spec_leaves(freqs, m1, n) == spec_leaves(freqs, m2, n),
    decreases n,
{
    if n > 0 {
        lemma_leaves_mode_value(freqs, m1, m2, n - 1);
    }
}

/// The coded section depends only on the mode's variant.
proof fn lemma_section_mode_value(
    syms: Seq<int>,
    m: Map<Symbol, Seq<bool>>,
    m1: Symbol,
    m2: Symbol,
    k: int,
)
    requires
        sym_in_mode(m1, m2),
    ensures
        map_code_section(syms, m, m1, k) == map_code_section(syms, m, m2, k),
    decreases k,
{
    if k > 0 {
        lemma_section_mode_value(syms, m, m1, m2, k - 1);
    }
}

/// Round trip: decompressing what `compress` produced recovers the input. In
/// byte mode no byte value may occur more than 65535 times (the header's
/// reserved class); in pair mode no pair value may either (the 16-bit value
/// tier), and the input must be of even length, since a trailing odd byte is
/// not a whole symbol and is dropped.
#[verifier::rlimit(100)]
#[verifier::spinoff_prover]
pub proof fn lemma_round_trip(input: Seq<u8>, mode: Symbol, compressed: Seq<u8>)
    requires
        stream_bits(compressed) == spec_compress_output(input, mode),
        forall|s: int|
            0 <= s < n_syms(mode) ==> #[trigger] count_sym(syms_of(input, mode), s) <= 65535,
        mode is TwoBytes ==> input.len() % 2 == 0,
    ensures
        spec_decompress(compressed) == input,
{
    let bits = stream_bits(compressed);
    let fr = spec_freqs(input, mode);
    let syms = syms_of(input, mode);
    let hdr = header_bits(fr, mode);
    let cb = compress_bits(input, mode);
    let pad = zero_bits(padding_of(cb.len() as int));
    let n = n_syms(mode);

    lemma_syms_in_range(input, mode);
    assert forall|s: int| 0 <= s < n implies #[trigger] fr[s] as int == count_sym(syms, s) by {
        lemma_count_nonneg(syms, s);
    };

    let dmode = if mode is TwoBytes {
        Symbol::TwoBytes(0)
    } else {
        Symbol::OneByte(0)
    };
    assert(sym_in_mode(mode, dmode));
    assert(syms_of(input, dmode) =~= syms);
    assert(parsed_freqs(bits, dmode).len() == n);

    let csec = if has_symbols(input, mode) {
        map_code_section(syms, spec_code_map(input, mode), mode, syms.len() as int)
    } else {
        Seq::<bool>::empty()
    };
    let rest = csec + pad;
    assert(bits =~= seq![mode is TwoBytes] + hdr + rest);
    assert(bit_at(bits, 0) == (mode is TwoBytes));

    // The decoder rebuilds the encoder's frequency table.
    if mode is TwoBytes {
        lemma_parse_header_pair(fr, rest, bits);
    } else {
        lemma_parse_header_one_byte(fr, rest, bits);
    }
    assert(parsed_freqs(bits, dmode) =~= fr);

    // The total symbol count is the input's symbol count.
    lemma_sum_counts(syms, fr, n);
    let total = sum_freqs(fr, n);

    if syms.len() == 0 {
        assert(spec_decompress(compressed) =~= Seq::<u8>::empty());
        match mode {
            Symbol::OneByte(_) => {
                assert(input.len() == 0);
            },
            Symbol::TwoBytes(_) => {
                assert(input.len() / 2 == 0 && input.len() % 2 == 0);
                assert(input.len() == 0) by (nonlinear_arith)
                    requires
                        input.len() / 2 == 0 && input.len() % 2 == 0,
                ;
            },
        }
        assert(spec_decompress(compressed) =~= input);
    } else {
        // The decoder builds the identical tree.
        lemma_count_last_pos(syms);
        lemma_leaves_nonempty(fr, dmode, n, syms.last());
        lemma_leaves_wf(fr, dmode, n);
        lemma_spec_merge_wf(spec_leaves(fr, dmode, n));
        lemma_leaves_mode_value(fr, mode, dmode, n);
        let tree = spec_build_tree(fr, dmode);
        assert(tree == spec_build_tree(fr, mode));
        let m = spec_codes(tree, Seq::empty());
        assert(m == spec_code_map(input, mode));

        // Every input symbol has a codeword.
        lemma_merge_dom(spec_leaves(fr, dmode, n), Seq::empty());
        lemma_leaves_dom(fr, dmode, n);
        assert forall|j: int| 0 <= j < syms.len() implies m.dom().contains(
            mk_symbol(dmode, #[trigger] syms[j]),
        ) by {
            lemma_count_at_index(syms, j);
            assert(fr[syms[j]] > 0);
            assert(exists|v: int|
                0 <= v < n && fr[v] > 0 && mk_symbol(dmode, syms[j]) == #[trigger] mk_symbol(
                    dmode,
                    v,
                ));
        };

        // The coded section begins right behind the header.
        let base = 1 + hdr.len() as int;
        lemma_section_mode_value(syms, m, mode, dmode, syms.len() as int);
        assert(csec == map_code_section(syms, m, dmode, syms.len() as int));
        assert(cb.len() == 1 + hdr.len() + csec.len());
        assert(bits.len() == cb.len() + pad.len());
        match mode {
            Symbol::OneByte(_) => {
                lemma_class_section_len(fr, 256);
                lemma_value_section_len(fr, 256);
                assert(ob_val_offset(bits, 256) == base);
                assert(coded_start(bits, dmode) == base);
            },
            Symbol::TwoBytes(_) => {
                lemma_exist_section_len(fr, 65536);
                lemma_pair_value_section_len(fr, 65536);
                assert(pair_val_offset(bits, 65536) == base);
                assert(coded_start(bits, dmode) == base);
            },
        }

        // The walk over the coded section emits the input's symbols.
        assert forall|i: int| 0 <= i < csec.len() implies #[trigger] bits[base + i]
            == csec[i] by {
            assert(bits[base + i] == (seq![mode is TwoBytes] + hdr + rest)[base + i]);
            assert(rest[i] == csec[i]);
        };
        assert(map_code_section(syms, m, dmode, 0) =~= Seq::<bool>::empty());
        lemma_walk_stream(tree, bits, base, syms, m, dmode, 0);
        assert(spec_walk(tree, tree, bits, base, syms.len() as int) == syms.subrange(
            0,
            syms.len() as int,
        ));
        assert(syms.subrange(0, syms.len() as int) =~= syms);
        assert(total == syms.len());

        // The emitted symbols expand back to the input bytes.
        match mode {
            Symbol::OneByte(_) => {
                assert(syms_to_bytes(syms, dmode) =~= input);
            },
            Symbol::TwoBytes(_) => {
                let out = syms_to_bytes(syms, dmode);
                assert(syms.len() == input.len() / 2);
                assert(out.len() == input.len()) by (nonlinear_arith)
                    requires
                        out.len() == 2 * (input.len() / 2),
                        input.len() % 2 == 0,
                ;
                assert forall|i: int| 0 <= i < out.len() implies out[i] == input[i] by {
                    let q = i / 2;
                    assert(0 <= q < syms.len() && i == 2 * q + i % 2 && 0 <= i % 2 < 2)
                        by (nonlinear_arith)
                        requires
                            0 <= i < 2 * syms.len(),
                            q == i / 2,
                    ;
                    let hi = input[2 * q] as int;
                    let lo = input[2 * q + 1] as int;
                    assert(syms[q] == hi * 256 + lo);
                    assert((hi * 256 + lo) / 256 == hi && (hi * 256 + lo) % 256 == lo)
                        by (nonlinear_arith)
                        requires
                            0 <= lo < 256,
                            0 <= hi,
                    ;
                };
                assert(out =~= input);
            },
        }
        assert(spec_decompress(compressed) == input);
    }
}

/// Determinism of compression: two compressed buffers produced from the same
/// input in the same mode are byte-identical. The tree builder's tie-break
/// leaves the encoder no free choice.
pub proof fn lemma_compress_deterministic(r1: Seq<u8>, r2: Seq<u8>, input: Seq<u8>, mode: Symbol)
    requires
        stream_bits(r1) == spec_compress_output(input, mode),
        stream_bits(r2) == spec_compress_output(input, mode),
    ensures
        r1 == r2,
{
    crate::bit_io::lemma_stream_bits_injective(r1, r2);
}

/// Header accounting: the header `compress` writes never outgrows the
/// compressed buffer, so the header bytes and the coded-data bytes tile the
/// buffer exactly.
pub proof fn lemma_header_accounting(input: Seq<u8>, mode: Symbol)
    ensures
        0 < bytes_for(1 + header_bits(spec_freqs(input, mode), mode).len() as int),
        bytes_for(1 + header_bits(spec_freqs(input, mode), mode).len() as int) <= bytes_for(
            compress_bits(input, mode).len() as int,
        ),
{
    let nh = 1 + header_bits(spec_freqs(input, mode), mode).len() as int;
    let total = compress_bits(input, mode).len() as int;
    lemma_bytes_for_props(nh);
    lemma_bytes_for_props(total);
    assert(nh <= total);
}

/// Relies on `String::push`: appends exactly one character to the string.
pub assume_specification[ String::push ](s: &mut String, ch: char)
    ensures
        final(s)@ == old(s)@.push(ch),
;

/// The uppercase hexadecimal digit characters.
pub open spec fn hex_char(d: int) -> char {
    if d == 0 {
        '0'
    } else if d == 1 {
        '1'
    } else if d == 2 {
        '2'
    } else if d == 3 {
        '3'
    } else if d == 4 {
        '4'
    } else if d == 5 {
        '5'
    } else if d == 6 {
        '6'
    } else if d == 7 {
        '7'
    } else if d == 8 {
        '8'
    } else if d == 9 {
        '9'
    } else if d == 10 {
        'A'
    } else if d == 11 {
        'B'
    } else if d == 12 {
        'C'
    } else if d == 13 {
        'D'
    } else if d == 14 {
        'E'
    } else {
        'F'
    }
}

/// The label of one symbol in the diagnostic dump: a printable byte shows
/// itself with its hex value, any other byte or pair only the hex value.
pub open spec fn sym_label(s: Symbol) -> Seq<char> {
    match s {
        Symbol::OneByte(b) => if 32 <= b <= 126 {
            seq![b as char, ' ', '(', '0', 'x', hex_char(b as int / 16), hex_char(b as int % 16), ')']
        } else {
            seq!['b', 'y', 't', 'e', ' ', '0', 'x', hex_char(b as int / 16), hex_char(b as int % 16)]
        },
        Symbol::TwoBytes(v) => seq![
            'b',
            'y',
            't',
            'e',
            's',
            ' ',
            '0',
            'x',
            hex_char(v as int / 4096),
            hex_char((v as int / 256) % 16),
            hex_char((v as int / 16) % 16),
            hex_char(v as int % 16),
        ],
    }
}

/// A codeword as a character string of zeros and ones.
pub open spec fn code_chars(code: Seq<bool>) -> Seq<char> {
    Seq::new(
        code.len(),
        |i: int|
            if code[i] {
                '1'
            } else {
                '0'
            },
    )
}

/// One labelled entry per symbol with a codeword, for the symbol values in
/// `lo..hi`, in ascending value order.
pub open spec fn dump_segment(table: Seq<Option<Vec<bool>>>, mode: Symbol, lo: int, hi: int) -> Seq<
    (Seq<char>, Seq<char>),
>
    decreases hi - lo,
{
    if hi <= lo {
        Seq::empty()
    } else {
        dump_segment(table, mode, lo, hi - 1) + (if 0 <= hi - 1 < table.len() && table[hi - 1]
            is Some {
            seq![(sym_label(mk_symbol(mode, hi - 1)), code_chars(table[hi - 1].unwrap()@))]
        } else {
            Seq::empty()
        })
    }
}

/// The diagnostic dump of a code table, in the order the labels sort. Byte
/// labels come in three blocks: the printable bytes up to `b` show themselves
/// first, the hex-labelled bytes (starting with the letter `b` of `byte`)
/// follow in value order, and the printable bytes past `b` close the list.
/// Pair labels all share one shape, so their value order is their label
/// order.
pub open spec fn dump_entries(table: Seq<Option<Vec<bool>>>, mode: Symbol) -> Seq<
    (Seq<char>, Seq<char>),
> {
    match mode {
        Symbol::OneByte(_) => dump_segment(table, mode, 32, 99) + dump_segment(table, mode, 0, 32)
            + dump_segment(table, mode, 127, 256) + dump_segment(table, mode, 99, 127),
        Symbol::TwoBytes(_) => dump_segment(table, mode, 0, 65536),
    }
}

/// The character views of a built dump.
pub open spec fn pair_views(v: Seq<(String, String)>) -> Seq<(Seq<char>, Seq<char>)> {
    Seq::new(v.len(), |k: int| (v[k].0@, v[k].1@))
}

/// One hexadecimal digit character.
fn hex_char_of(d: u8) -> (c: char)
    requires
        d < 16,
    ensures
        c == hex_char(d as int),
{
    if d == 0 {
        '0'
    } else if d == 1 {
        '1'
    } else if d == 2 {
        '2'
    } else if d == 3 {
        '3'
    } else if d == 4 {
        '4'
    } else if d == 5 {
        '5'
    } else if d == 6 {
        '6'
    } else if d == 7 {
        '7'
    } else if d == 8 {
        '8'
    } else if d == 9 {
        '9'
    } else if d == 10 {
        'A'
    } else if d == 11 {
        'B'
    } else if d == 12 {
        'C'
    } else if d == 13 {
        'D'
    } else if d == 14 {
        'E'
    } else {
        'F'
    }
}

/// Whether `a` is an initial segment of `b`.
pub open spec fn is_prefix_of(a: Seq<bool>, b: Seq<bool>) -> bool {
    a.len() <= b.len() && a == b.subrange(0, a.len() as int)
}

/// Every codeword of a subtree extends the path prefix the walk carried into
/// it, strictly unless the subtree is a single leaf.
pub proof fn lemma_codes_extend(t: Node, prefix: Seq<bool>, s: Symbol)
    requires
        t.wf(),
        spec_codes(t, prefix).dom().contains(s),
    ensures
        spec_codes(t, prefix)[s].len() >= prefix.len(),
        spec_codes(t, prefix)[s].subrange(0, prefix.len() as int) == prefix,
        !t.spec_is_leaf() ==> spec_codes(t, prefix)[s].len() > prefix.len(),
    decreases t,
{
    if t.spec_is_leaf() {
        assert(spec_codes(t, prefix)[s] == prefix);
        assert(prefix.subrange(0, prefix.len() as int) =~= prefix);
    } else {
        match (t.left, t.right) {
            (Option::Some(l), Option::Some(r)) => {
                let mr = spec_codes(*r, prefix.push(true));
                let ml = spec_codes(*l, prefix.push(false));
                if mr.dom().contains(s) {
                    lemma_codes_extend(*r, prefix.push(true), s);
                    let code = spec_codes(t, prefix)[s];
                    assert(code == mr[s]);
                    assert(code.subrange(0, prefix.len() as int + 1) == prefix.push(true));
                    assert(code.subrange(0, prefix.len() as int) =~= prefix);
                } else {
                    assert(ml.dom().contains(s));
                    lemma_codes_extend(*l, prefix.push(false), s);
                    let code = spec_codes(t, prefix)[s];
                    assert(code == ml[s]);
                    assert(code.subrange(0, prefix.len() as int + 1) == prefix.push(false));
                    assert(code.subrange(0, prefix.len() as int) =~= prefix);
                }
            },
            _ => {
                assert(false);
            },
        }
    }
}

/// No codeword of one subtree is a prefix of a different symbol's codeword:
/// codewords are root-to-leaf paths, and a leaf ends its path.
pub proof fn lemma_codes_prefix_free(t: Node, prefix: Seq<bool>, s1: Symbol, s2: Symbol)
    requires
        t.wf(),
        s1 != s2,
        spec_codes(t, prefix).dom().contains(s1),
        spec_codes(t, prefix).dom().contains(s2),
    ensures
        !is_prefix_of(spec_codes(t, prefix)[s1], spec_codes(t, prefix)[s2]),
    decreases t,
{
    if t.spec_is_leaf() {
        assert(s1 == t.symbol && s2 == t.symbol);
        assert(false);
    } else {
        match (t.left, t.right) {
            (Option::Some(l), Option::Some(r)) => {
                let ml = spec_codes(*l, prefix.push(false));
                let mr = spec_codes(*r, prefix.push(true));
                let c1 = spec_codes(t, prefix)[s1];
                let c2 = spec_codes(t, prefix)[s2];
                let p = prefix.len() as int;
                if mr.dom().contains(s1) && mr.dom().contains(s2) {
                    lemma_codes_prefix_free(*r, prefix.push(true), s1, s2);
                } else if !mr.dom().contains(s1) && !mr.dom().contains(s2) {
                    lemma_codes_prefix_free(*l, prefix.push(false), s1, s2);
                } else {
                    let b1 = mr.dom().contains(s1);
                    if b1 {
                        lemma_codes_extend(*r, prefix.push(true), s1);
                        lemma_codes_extend(*l, prefix.push(false), s2);
                        assert(c1.subrange(0, p + 1) == prefix.push(true));
                        assert(c2.subrange(0, p + 1) == prefix.push(false));
                        assert(c1.subrange(0, p + 1)[p] == c1[p]);
                        assert(c2.subrange(0, p + 1)[p] == c2[p]);
                        assert(prefix.push(true)[p] == true);
                        assert(prefix.push(false)[p] == false);
                        assert(c1[p] == true && c2[p] == false);
                    } else {
                        lemma_codes_extend(*l, prefix.push(false), s1);
                        lemma_codes_extend(*r, prefix.push(true), s2);
                        assert(c1.subrange(0, p + 1) == prefix.push(false));
                        assert(c2.subrange(0, p + 1) == prefix.push(true));
                        assert(c1.subrange(0, p + 1)[p] == c1[p]);
                        assert(c2.subrange(0, p + 1)[p] == c2[p]);
                        assert(prefix.push(false)[p] == false);
                        assert(prefix.push(true)[p] == true);
                        assert(c1[p] == false && c2[p] == true);
                    }
                    if is_prefix_of(c1, c2) {
                        assert(c1[p] == c2.subrange(0, c1.len() as int)[p]);
                        assert(false);
                    }
                }
            },
            _ => {
                assert(false);
            },
        }
    }
}

/// Prefix-free codes: in any one run, no symbol's codeword is a prefix of
/// another symbol's codeword, so the coded stream needs no separators.
pub proof fn lemma_prefix_free(input: Seq<u8>, mode: Symbol, s1: Symbol, s2: Symbol)
    requires
        has_symbols(input, mode),
        s1 != s2,
        spec_code_map(input, mode).dom().contains(s1),
        spec_code_map(input, mode).dom().contains(s2),
    ensures
        !is_prefix_of(spec_code_map(input, mode)[s1], spec_code_map(input, mode)[s2]),
{
    let fr = spec_freqs(input, mode);
    let syms = syms_of(input, mode);
    lemma_syms_in_range(input, mode);
    lemma_count_last_pos(syms);
    lemma_leaves_nonempty(fr, mode, n_syms(mode), syms.last());
    lemma_leaves_wf(fr, mode, n_syms(mode));
    lemma_spec_merge_wf(spec_leaves(fr, mode, n_syms(mode)));
    lemma_codes_prefix_free(spec_build_tree(fr, mode), Seq::empty(), s1, s2);
}

/// A positive total means some count is positive.
proof fn lemma_sum_pos_exists(freqs: Seq<u32>, n: int)
    requires
        sum_freqs(freqs, n) > 0,
    ensures
        exists|s: int| 0 <= s < n && #[trigger] freqs[s] > 0,
    decreases n,
{
    if n > 0 {
        if freqs[n - 1] > 0 {
            assert(0 <= n - 1 < n && freqs[n - 1] > 0);
        } else {
            lemma_sum_pos_exists(freqs, n - 1);
        }
    }
}

/// A pair symbol's two output bytes are its high and low halves.
proof fn lemma_u16_bytes(v: u16)
    ensures
        (v >> 8u16) as int == v as int / 256,
        (v as u8) as int == v as int % 256,
{
    let hi = (v >> 8u16) as int;
    let lo = (v as u8) as int;
    assert(((v >> 8u16) as int) * 256 + ((v as u8) as int) == v as int && ((v >> 8u16) as int)
        < 256 && ((v as u8) as int) < 256) by (bit_vector);
    assert(v as int / 256 == hi && v as int % 256 == lo) by (nonlinear_arith)
        requires
            hi * 256 + lo == v as int,
            0 <= lo,
            lo < 256,
            0 <= hi,
    ;
}

/// Emitting one more symbol appends its bytes to the output.
proof fn lemma_syms_to_bytes_push(syms: Seq<int>, v: int, mode: Symbol)
    ensures
        syms_to_bytes(syms.push(v), mode) == syms_to_bytes(syms, mode) + (match mode {
            Symbol::OneByte(_) => seq![v as u8],
            Symbol::TwoBytes(_) => seq![(v / 256) as u8, (v % 256) as u8],
        }),
{
    match mode {
        Symbol::OneByte(_) => {
            assert(syms_to_bytes(syms.push(v), mode) =~= syms_to_bytes(syms, mode)
                + seq![v as u8]);
        },
        Symbol::TwoBytes(_) => {
            let lhs = syms_to_bytes(syms.push(v), mode);
            let rhs = syms_to_bytes(syms, mode) + seq![(v / 256) as u8, (v % 256) as u8];
            assert(lhs.len() == rhs.len());
            assert forall|i: int| 0 <= i < lhs.len() implies lhs[i] == rhs[i] by {
                let n = syms.len() as int;
                assert(0 <= i / 2 <= n && 0 <= i % 2 < 2 && i == 2 * (i / 2) + i % 2)
                    by (nonlinear_arith)
                    requires
                        0 <= i < 2 * n + 2,
                ;
                if i / 2 < n {
                    assert(syms.push(v)[i / 2] == syms[i / 2]);
                } else {
                    assert(i / 2 == n);
                    assert(syms.push(v)[i / 2] == v);
                }
            };
            assert(lhs =~= rhs);
        },
    }
}

/// A fresh copy of a bit path.
fn copy_bits(v: &Vec<bool>) -> (r: Vec<bool>)
    ensures
        r@ == v@,
{
    let mut r: Vec<bool> = Vec::new();
    let mut i: usize = 0;
    while i < v.len()
        invariant
            i <= v@.len(),
            r@ == v@.take(i as int),
        decreases v@.len() - i,
    {
        r.push(v[i]);
        proof {
            assert(r@ =~= v@.take(i as int + 1));
        }
        i = i + 1;
    }
    proof {
        assert(v@.take(v@.len() as int) =~= v@);
    }
    r
}

/// The position of a symbol in the tie-break order.
fn rank_of(s: Symbol) -> (r: u32)
    ensures
        r as int == symbol_rank(s),
{
    match s {
        Symbol::TwoBytes(v) => v as u32,
        Symbol::OneByte(b) => 65536 + b as u32,
    }
}

/// Whether `a` is extracted before `b` by the tree builder.
fn node_precedes(a: &Node, b: &Node) -> (r: bool)
    ensures
        r == node_lt(*a, *b),
{
    a.frequency < b.frequency || (a.frequency == b.frequency && rank_of(a.symbol) < rank_of(
        b.symbol,
    ))
}

/// The index of the node the builder extracts next.
fn find_min_node(nodes: &Vec<Node>) -> (r: usize)
    requires
        nodes@.len() >= 1,
    ensures
        r as int == min_node_idx(nodes@, 0),
        r < nodes@.len(),
{
    proof {
        lemma_min_node_idx_in_range(nodes@, 0);
    }
    let mut i: usize = nodes.len() - 1;
    let mut best: usize = nodes.len() - 1;
    while i > 0
        invariant
            nodes@.len() >= 1,
            i < nodes@.len(),
            best as int == min_node_idx(nodes@, i as int),
            best < nodes@.len(),
        decreases i,
    {
        proof {
            lemma_min_node_idx_in_range(nodes@, i as int);
        }
        i = i - 1;
        if node_precedes(&nodes[best], &nodes[i]) {
            // keep best
        } else {
            best = i;
        }
    }
    best
}

proof fn lemma_marker_bits(e: u8)
    by (bit_vector)
    requires
        e <= 3,
    ensures
        ((e & 0b10) != 0) == (e == 2 || e == 3),
        ((e & 0b01) != 0) == (e == 1 || e == 3),
{
}

} // verus!
