//! The continuation bootloader: the layout of its inputs and the bound on its
//! shutdown routine.
use vstd::prelude::*;

use crate::field::GoldilocksField;
use crate::text::push_str;

verus! {

/// 32-bit architecture: 2^32 bytes of addressable memory.
pub const MEMORY_SIZE_LOG: usize = 32;

/// Pages are 2KB.
pub const PAGE_SIZE_BYTES_LOG: usize = 11;

/// 32-bit architecture: 4 bytes per word.
pub const BYTES_PER_WORD: usize = 4;

/// Words in a page.
pub const WORDS_PER_PAGE: usize = 512;

/// Words in a hash value.
pub const WORDS_PER_HASH: usize = 8;

/// The number of registers the bootloader saves and restores (the last is the PC).
pub const NUM_REGISTERS: usize = 37;

/// Instructions of the shutdown routine that do not depend on the number of pages:
/// jumping to it, asserting all registers except the PC, starting the page loop and
/// jumping to the shutdown sink.
pub open spec fn shutdown_constant_overhead() -> int {
    6 + NUM_REGISTERS - 1
}

/// Instructions of the shutdown routine per page: starting the page loop, loading all
/// words, one hash invocation every four words, checking the page hash, and moving on
/// to the next page.
pub open spec fn shutdown_cost_per_page() -> int {
    14 + WORDS_PER_PAGE + WORDS_PER_PAGE / 4 + WORDS_PER_HASH + 2
}

/// An upper bound of how long the shutdown routine runs for the given number of pages.
pub fn shutdown_routine_upper_bound(num_pages: usize) -> (r: usize)
    requires
        shutdown_constant_overhead() + num_pages * shutdown_cost_per_page() <= usize::MAX,
    ensures
        r == shutdown_constant_overhead() + num_pages * shutdown_cost_per_page(),
{
    let constant_overhead: usize = 6 + NUM_REGISTERS - 1;
    let cost_per_page: usize = 14 + WORDS_PER_PAGE + WORDS_PER_PAGE / 4 + WORDS_PER_HASH + 2;
    constant_overhead + num_pages * cost_per_page
}


/// Field elements per 32-bit word; one for the Goldilocks field.
pub const FE_PER_WORD: usize = 1;

/// The depth of the Merkle tree over the memory pages.
pub const MERKLE_TREE_DEPTH: usize = 22;

/// The inputs per page: its index, its words, its hash and the hashes of the
/// siblings on the path to the root.
pub const BOOTLOADER_INPUTS_PER_PAGE: usize = 689;

/// Where the memory hashes start: after the initial and the final registers.
pub const MEMORY_HASH_START_INDEX: usize = 74;

/// Where the number of pages is: after the initial and the final memory hash.
pub const NUM_PAGES_INDEX: usize = 90;

/// Where the inputs of the first page start.
pub const PAGE_INPUTS_OFFSET: usize = 91;

/// The position of the PC among the registers.
pub const PC_INDEX: usize = 36;

/// The PC of a first chunk: it goes on with whatever comes after the bootloader.
pub const DEFAULT_PC: u64 = 3;

/// The PC that jumps to the shutdown routine.
pub const SHUTDOWN_START: u64 = 4;

/// The inputs of one accessed page: its index, its words, its hash and the
/// hashes of its siblings on the path to the root of the Merkle tree, all as
/// field elements.
pub struct PageInputs {
    pub index: u32,
    pub data: Vec<GoldilocksField>,
    pub hash: Vec<GoldilocksField>,
    pub siblings: Vec<Vec<GoldilocksField>>,
}

/// The page inputs have the sizes of the layout.
pub open spec fn page_shaped(p: PageInputs) -> bool {
    &&& p.data@.len() == WORDS_PER_PAGE * FE_PER_WORD
    &&& p.hash@.len() == WORDS_PER_HASH * FE_PER_WORD
    &&& p.siblings@.len() == MERKLE_TREE_DEPTH - 1
    &&& forall|s: int| 0 <= s < p.siblings@.len() ==> (#[trigger] p.siblings@[s])@.len() == WORDS_PER_HASH * FE_PER_WORD
}

/// The hashes of a path, one after the other.
pub open spec fn flatten(hs: Seq<Vec<GoldilocksField>>) -> Seq<GoldilocksField>
    decreases hs.len(),
{
    if hs.len() == 0 {
        seq![]
    } else {
        flatten(hs.drop_last()) + hs.last()@
    }
}

/// The field element of a word.
pub open spec fn word_fe(w: u32) -> GoldilocksField {
    GoldilocksField(w as u64)
}

/// The inputs of one page.
pub open spec fn page_layout(p: PageInputs) -> Seq<GoldilocksField> {
    seq![word_fe(p.index)] + p.data@ + p.hash@ + flatten(p.siblings@)
}

/// The inputs of the pages, one after the other.
pub open spec fn pages_layout(ps: Seq<PageInputs>) -> Seq<GoldilocksField>
    decreases ps.len(),
{
    if ps.len() == 0 {
        seq![]
    } else {
        pages_layout(ps.drop_last()) + page_layout(ps.last())
    }
}

/// The initial inputs: the registers twice (initial and final values), the root
/// hash twice (initial and final memory), the number of pages and the pages.
pub open spec fn initial_layout(regs: Seq<GoldilocksField>, root: Seq<GoldilocksField>, ps: Seq<PageInputs>) -> Seq<
    GoldilocksField,
> {
    regs + regs + root + root + seq![word_fe(ps.len() as u32)] + pages_layout(ps)
}

/// Where the hash of the page at position `i` among the inputs starts.
pub open spec fn page_hash_start(i: int) -> int {
    (PAGE_INPUTS_OFFSET + BOOTLOADER_INPUTS_PER_PAGE * i + 1 + WORDS_PER_PAGE) * FE_PER_WORD
}

/// Where the sibling hashes of the page at position `i` start.
pub open spec fn proof_start_spec(i: int) -> int {
    FE_PER_WORD * (PAGE_INPUTS_OFFSET + BOOTLOADER_INPUTS_PER_PAGE * i + 1 + WORDS_PER_PAGE + WORDS_PER_HASH)
}

/// Where the sibling hash `s` of the page at position `i` starts.
pub open spec fn sibling_start(i: int, s: int) -> int {
    proof_start_spec(i) + s * WORDS_PER_HASH * FE_PER_WORD
}

/// Where the final register values start.
pub open spec fn final_registers_start() -> int {
    NUM_REGISTERS * FE_PER_WORD
}

/// Where the final memory hash starts.
pub open spec fn final_root_start() -> int {
    (MEMORY_HASH_START_INDEX + WORDS_PER_HASH) * FE_PER_WORD
}

/// `v` with the values from `start` on replaced by `h`.
pub open spec fn overwrite(v: Seq<GoldilocksField>, start: int, h: Seq<GoldilocksField>) -> Seq<GoldilocksField> {
    Seq::new(v.len(), |k: int| if start <= k < start + h.len() { h[k - start] } else { v[k] })
}

/// The `len` values from `start` on.
pub open spec fn region(v: Seq<GoldilocksField>, start: int, len: int) -> Seq<GoldilocksField> {
    v.subrange(start, start + len)
}

/// The inputs of the bootloader, in the order in which it reads them.
pub struct BootloaderInputs {
    inputs: Vec<GoldilocksField>,
}

/// The register values of a first chunk: all zero but the PC, which is the
/// default one.
pub fn default_register_values() -> (r: Vec<GoldilocksField>)
    ensures
        r@.len() == NUM_REGISTERS * FE_PER_WORD,
        forall|i: int| 0 <= i < r@.len() ==> r@[i] == if i == (PC_INDEX + 1) * FE_PER_WORD - 1 {
            GoldilocksField(DEFAULT_PC)
        } else {
            GoldilocksField(0)
        },
{
    let mut r: Vec<GoldilocksField> = Vec::new();
    let n = NUM_REGISTERS * FE_PER_WORD;
    for i in 0..n
        invariant
            n == NUM_REGISTERS * FE_PER_WORD,
            r@.len() == i,
            forall|k: int| 0 <= k < i ==> r@[k] == GoldilocksField(0),
    {
        r.push(GoldilocksField(0));
    }
    r.set((PC_INDEX + 1) * FE_PER_WORD - 1, GoldilocksField(DEFAULT_PC));
    r
}

/// The low and the high 32 bits of a field element.
pub fn split_fe(v: GoldilocksField) -> (r: [GoldilocksField; 2])
    ensures
        r@ == seq![GoldilocksField(v.0 % 0x1_0000_0000), GoldilocksField(v.0 / 0x1_0000_0000)],
{
    let x = v.to_integer();
    let lo = x & 0xffff_ffff;
    let hi = x >> 32;
    assert(lo == x % 0x1_0000_0000 && hi == x / 0x1_0000_0000) by (bit_vector)
        requires
            lo == x & 0xffff_ffff,
            hi == x >> 32,
    ;
    [GoldilocksField(lo), GoldilocksField(hi)]
}

/// Appends the values of `src` to `dst`.
fn append_all(dst: &mut Vec<GoldilocksField>, src: &Vec<GoldilocksField>)
    ensures
        final(dst)@ == old(dst)@ + src@,
{
    let ghost d0 = dst@;
    for i in 0..src.len()
        invariant
            dst@ == d0 + src@.subrange(0, i as int),
    {
        dst.push(src[i]);
        proof {
            assert(dst@ =~= d0 + src@.subrange(0, i + 1));
        }
    }
    proof {
        assert(src@.subrange(0, src@.len() as int) =~= src@);
    }
}

/// Overwrites the values from `start` on with `h`.
fn write_region(v: &mut Vec<GoldilocksField>, start: usize, h: &Vec<GoldilocksField>)
    requires
        start + h@.len() <= old(v)@.len(),
    ensures
        final(v)@ == overwrite(old(v)@, start as int, h@),
{
    let ghost v0 = v@;
    let n = v.len();
    for k in 0..h.len()
        invariant
            start + h@.len() <= v0.len(),
            v0.len() == n,
            v@.len() == v0.len(),
            forall|j: int| 0 <= j < v0.len() ==> v@[j] == if start <= j < start + k { h@[j - start] } else { v0[j] },
    {
        v.set(start + k, h[k]);
    }
    proof {
        assert(v@ =~= overwrite(v0, start as int, h@));
    }
}

/// The `len` values from `start` on.
fn read_region(v: &Vec<GoldilocksField>, start: usize, len: usize) -> (r: Vec<GoldilocksField>)
    requires
        start + len <= v@.len(),
    ensures
        r@ == region(v@, start as int, len as int),
{
    let mut r: Vec<GoldilocksField> = Vec::new();
    let n = v.len();
    for k in 0..len
        invariant
            start + len <= v@.len(),
            v@.len() == n,
            r@ == v@.subrange(start as int, start + k),
    {
        r.push(v[start + k]);
        proof {
            assert(r@ =~= v@.subrange(start as int, start + k + 1));
        }
    }
    r
}

impl BootloaderInputs {
    /// The inputs, in order.
    pub closed spec fn inputs(&self) -> Seq<GoldilocksField> {
        self.inputs@
    }

    /// The inputs of a bootloader run: the register values as the initial and the
    /// final registers, the root hash of the memory as the initial and the final
    /// memory hash, the number of pages, and for each page its index, words, hash
    /// and sibling hashes.
    pub fn new(register_values: Vec<GoldilocksField>, root_hash: &Vec<GoldilocksField>, pages: &Vec<PageInputs>) -> (r:
        Self)
        requires
            initial_layout(register_values@, root_hash@, pages@).len() <= usize::MAX,
        ensures
            r.inputs() == initial_layout(register_values@, root_hash@, pages@),
    {
        let ghost regs = register_values@;
        let mut inputs = register_values;
        let copy = clone_values(&inputs);
        append_all(&mut inputs, &copy);
        append_all(&mut inputs, root_hash);
        append_all(&mut inputs, root_hash);
        inputs.push(GoldilocksField(pages.len() as u32 as u64));
        let ghost head = inputs@;
        proof {
            assert(head =~= regs + regs + root_hash@ + root_hash@ + seq![word_fe(pages@.len() as u32)]);
            assert(pages@.take(0) =~= Seq::<PageInputs>::empty());
            assert(head + pages_layout(pages@.take(0)) =~= head);
            lemma_pages_layout_prefix_len(pages@);
        }
        for i in 0..pages.len()
            invariant
                inputs@ == head + pages_layout(pages@.take(i as int)),
                head.len() + pages_layout(pages@).len() <= usize::MAX,
                forall|k: int| 0 <= k <= pages@.len() ==> pages_layout(#[trigger] pages@.take(k)).len() <= pages_layout(pages@).len(),
        {
            proof {
                assert(pages@.take(i + 1).drop_last() =~= pages@.take(i as int));
                assert(pages@.take(i + 1).last() == pages@[i as int]);
            }
            let p = &pages[i];
            inputs.push(GoldilocksField(p.index as u64));
            append_all(&mut inputs, &p.data);
            append_all(&mut inputs, &p.hash);
            let ghost before_proof = inputs@;
            for s in 0..p.siblings.len()
                invariant
                    inputs@ == before_proof + flatten(p.siblings@.take(s as int)),
                    p == &pages@[i as int],
            {
                proof {
                    assert(p.siblings@.take(s + 1).drop_last() =~= p.siblings@.take(s as int));
                    assert(p.siblings@.take(s + 1).last() == p.siblings@[s as int]);
                }
                append_all(&mut inputs, &p.siblings[s]);
            }
            proof {
                assert(p.siblings@.take(p.siblings@.len() as int) =~= p.siblings@);
                assert(inputs@ =~= head + pages_layout(pages@.take(i + 1)));
            }
        }
        proof {
            assert(pages@.take(pages@.len() as int) =~= pages@);
        }
        BootloaderInputs { inputs }
    }

    /// The number of inputs.
    pub fn len(&self) -> (r: usize)
        ensures
            r == self.inputs().len(),
    {
        self.inputs.len()
    }

    /// The initial memory hash.
    pub fn initial_memory_hash(&self) -> (r: Vec<GoldilocksField>)
        requires
            (MEMORY_HASH_START_INDEX + WORDS_PER_HASH) * FE_PER_WORD <= self.inputs().len(),
        ensures
            r@ == region(self.inputs(), MEMORY_HASH_START_INDEX * FE_PER_WORD, WORDS_PER_HASH * FE_PER_WORD),
    {
        read_region(&self.inputs, MEMORY_HASH_START_INDEX * FE_PER_WORD, WORDS_PER_HASH * FE_PER_WORD)
    }

    /// The final memory hash.
    pub fn final_memory_hash(&self) -> (r: Vec<GoldilocksField>)
        requires
            final_root_start() + WORDS_PER_HASH * FE_PER_WORD <= self.inputs().len(),
        ensures
            r@ == region(self.inputs(), final_root_start(), WORDS_PER_HASH * FE_PER_WORD),
    {
        read_region(&self.inputs, (MEMORY_HASH_START_INDEX + WORDS_PER_HASH) * FE_PER_WORD, WORDS_PER_HASH * FE_PER_WORD)
    }

    /// Where the sibling hashes of the page at position `input_page_idx` start.
    fn proof_start(input_page_idx: usize) -> (r: usize)
        requires
            proof_start_spec(input_page_idx as int) <= usize::MAX,
        ensures
            r == proof_start_spec(input_page_idx as int),
    {
        FE_PER_WORD * (PAGE_INPUTS_OFFSET + BOOTLOADER_INPUTS_PER_PAGE * input_page_idx + 1 + WORDS_PER_PAGE
            + WORDS_PER_HASH)
    }

    /// Replaces the sibling hash `sibling_idx` of the page at position
    /// `input_page_idx`.
    pub fn update_proof(&mut self, input_page_idx: usize, sibling_idx: usize, hash: &Vec<GoldilocksField>)
        requires
            hash@.len() == WORDS_PER_HASH * FE_PER_WORD,
            sibling_start(input_page_idx as int, sibling_idx as int) + WORDS_PER_HASH * FE_PER_WORD <= old(
                self,
            ).inputs().len(),
        ensures
            final(self).inputs() == overwrite(
                old(self).inputs(),
                sibling_start(input_page_idx as int, sibling_idx as int),
                hash@,
            ),
    {
        let len = self.inputs.len();
        let start = Self::proof_start(input_page_idx) + sibling_idx * WORDS_PER_HASH * FE_PER_WORD;
        write_region(&mut self.inputs, start, hash);
    }

    /// The sibling hash `sibling_idx` of the page at position `input_page_idx`.
    pub fn proof_hash(&self, input_page_idx: usize, sibling_idx: usize) -> (r: Vec<GoldilocksField>)
        requires
            sibling_start(input_page_idx as int, sibling_idx as int) + WORDS_PER_HASH * FE_PER_WORD
                <= self.inputs().len(),
        ensures
            r@ == region(
                self.inputs(),
                sibling_start(input_page_idx as int, sibling_idx as int),
                WORDS_PER_HASH * FE_PER_WORD,
            ),
    {
        let len = self.inputs.len();
        let start = Self::proof_start(input_page_idx) + sibling_idx * WORDS_PER_HASH * FE_PER_WORD;
        read_region(&self.inputs, start, WORDS_PER_HASH * FE_PER_WORD)
    }

    /// Replaces the hash of the page at position `input_page_idx`.
    pub fn update_page_hash(&mut self, input_page_idx: usize, hash: &Vec<GoldilocksField>)
        requires
            hash@.len() == WORDS_PER_HASH * FE_PER_WORD,
            page_hash_start(input_page_idx as int) + WORDS_PER_HASH * FE_PER_WORD <= old(self).inputs().len(),
        ensures
            final(self).inputs() == overwrite(old(self).inputs(), page_hash_start(input_page_idx as int), hash@),
    {
        let len = self.inputs.len();
        let start = (PAGE_INPUTS_OFFSET + BOOTLOADER_INPUTS_PER_PAGE * input_page_idx + 1 + WORDS_PER_PAGE)
            * FE_PER_WORD;
        write_region(&mut self.inputs, start, hash);
    }

    /// Replaces the final register values.
    pub fn update_final_registers(&mut self, register_values: &Vec<GoldilocksField>)
        requires
            register_values@.len() == NUM_REGISTERS * FE_PER_WORD,
            final_registers_start() + NUM_REGISTERS * FE_PER_WORD <= old(self).inputs().len(),
        ensures
            final(self).inputs() == overwrite(old(self).inputs(), final_registers_start(), register_values@),
    {
        write_region(&mut self.inputs, NUM_REGISTERS * FE_PER_WORD, register_values);
    }

    /// Replaces the final memory hash.
    pub fn update_final_root(&mut self, hash: &Vec<GoldilocksField>)
        requires
            hash@.len() == WORDS_PER_HASH * FE_PER_WORD,
            final_root_start() + WORDS_PER_HASH * FE_PER_WORD <= old(self).inputs().len(),
        ensures
            final(self).inputs() == overwrite(old(self).inputs(), final_root_start(), hash@),
    {
        write_region(&mut self.inputs, (MEMORY_HASH_START_INDEX + WORDS_PER_HASH) * FE_PER_WORD, hash);
    }

    /// The initial value of the PC.
    pub fn pc(&self) -> (r: GoldilocksField)
        requires
            PC_INDEX < self.inputs().len(),
        ensures
            r == self.inputs()[PC_INDEX as int],
    {
        self.inputs[PC_INDEX]
    }

    /// The external witness column of the inputs.
    pub fn into_witness(self) -> (r: Vec<(String, Vec<GoldilocksField>)>)
        ensures
            r@.len() == 1,
            r@[0].0@ == "main_bootloader_inputs::value"@,
            r@[0].1@ == self.inputs(),
    {
        let mut name = String::new();
        push_str(&mut name, "main_bootloader_inputs::value");
        proof {
            assert(name@ =~= "main_bootloader_inputs::value"@);
        }
        let mut r: Vec<(String, Vec<GoldilocksField>)> = Vec::new();
        r.push((name, self.inputs));
        r
    }

    /// The inputs in the form the executor takes them.
    pub fn as_executor_input(&self) -> (r: &Vec<GoldilocksField>)
        ensures
            r@ == self.inputs(),
    {
        &self.inputs
    }
}

/// A copy of the values.
pub(crate) fn clone_values(v: &Vec<GoldilocksField>) -> (r: Vec<GoldilocksField>)
    ensures
        r@ == v@,
{
    let mut r: Vec<GoldilocksField> = Vec::new();
    append_all(&mut r, v);
    proof {
        assert(r@ =~= v@);
    }
    r
}

proof fn lemma_pages_layout_prefix_len(ps: Seq<PageInputs>)
    ensures
        forall|k: int| 0 <= k <= ps.len() ==> pages_layout(#[trigger] ps.take(k)).len() <= pages_layout(ps).len(),
    decreases ps.len(),
{
    assert(ps.take(ps.len() as int) =~= ps);
    if ps.len() > 0 {
        let pre = ps.drop_last();
        lemma_pages_layout_prefix_len(pre);
        assert forall|k: int| 0 <= k <= ps.len() implies pages_layout(#[trigger] ps.take(k)).len() <= pages_layout(
            ps,
        ).len() by {
            if k < ps.len() {
                assert(pre.take(k) =~= ps.take(k));
            }
        }
    }
}


/// Reading a region gives back what was last written there.
pub proof fn law_read_after_update(v: Seq<GoldilocksField>, start: int, h: Seq<GoldilocksField>)
    requires
        0 <= start,
        start + h.len() <= v.len(),
    ensures
        region(overwrite(v, start, h), start, h.len() as int) == h,
        overwrite(v, start, h).len() == v.len(),
{
    assert(region(overwrite(v, start, h), start, h.len() as int) =~= h);
}

/// Writing a region leaves every region apart from it as it was.
pub proof fn law_update_elsewhere(v: Seq<GoldilocksField>, start: int, h: Seq<GoldilocksField>, other: int, len: int)
    requires
        0 <= start,
        start + h.len() <= v.len(),
        0 <= other,
        0 <= len,
        other + len <= v.len(),
        other + len <= start || start + h.len() <= other,
    ensures
        region(overwrite(v, start, h), other, len) == region(v, other, len),
{
    assert(region(overwrite(v, start, h), other, len) =~= region(v, other, len));
}

/// The hash of one page and the sibling hashes of any page lie apart, so updating
/// a page hash leaves every sibling hash as it was.
pub proof fn law_page_hash_apart_from_siblings(i: int, j: int, s: int)
    requires
        0 <= i,
        0 <= j,
        0 <= s < MERKLE_TREE_DEPTH - 1,
    ensures
        page_hash_start(i) + WORDS_PER_HASH * FE_PER_WORD <= sibling_start(j, s) || sibling_start(j, s)
            + WORDS_PER_HASH * FE_PER_WORD <= page_hash_start(i),
{
    if i > j {
        assert(BOOTLOADER_INPUTS_PER_PAGE * i >= BOOTLOADER_INPUTS_PER_PAGE * (j + 1)) by (nonlinear_arith)
            requires
                i >= j + 1,
        ;
    } else if i < j {
        assert(BOOTLOADER_INPUTS_PER_PAGE * j >= BOOTLOADER_INPUTS_PER_PAGE * (i + 1)) by (nonlinear_arith)
            requires
                j >= i + 1,
        ;
    }
}

proof fn lemma_flatten(hs: Seq<Vec<GoldilocksField>>)
    requires
        forall|s: int| 0 <= s < hs.len() ==> (#[trigger] hs[s])@.len() == WORDS_PER_HASH * FE_PER_WORD,
    ensures
        flatten(hs).len() == WORDS_PER_HASH * FE_PER_WORD * hs.len(),
        forall|s: int, t: int|
            #![trigger hs[s]@[t]]
            0 <= s < hs.len() && 0 <= t < WORDS_PER_HASH * FE_PER_WORD ==> flatten(hs)[8 * s + t] == hs[s]@[t],
    decreases hs.len(),
{
    if hs.len() > 0 {
        let pre = hs.drop_last();
        assert forall|s: int| 0 <= s < pre.len() implies (#[trigger] pre[s])@.len() == WORDS_PER_HASH * FE_PER_WORD by {
            assert(pre[s] == hs[s]);
        }
        lemma_flatten(pre);
        assert(hs.last() == hs[hs.len() - 1]);
        assert forall|s: int, t: int|
            #![trigger hs[s]@[t]]
            0 <= s < hs.len() && 0 <= t < WORDS_PER_HASH * FE_PER_WORD implies flatten(hs)[8 * s + t] == hs[s]@[t] by {
            if s < hs.len() - 1 {
                assert(pre[s] == hs[s]);
            }
        }
    }
}

proof fn lemma_page_layout(p: PageInputs)
    requires
        page_shaped(p),
    ensures
        page_layout(p).len() == BOOTLOADER_INPUTS_PER_PAGE * FE_PER_WORD,
        region(page_layout(p), 1 + WORDS_PER_PAGE * FE_PER_WORD, WORDS_PER_HASH * FE_PER_WORD) == p.hash@,
        forall|s: int|
            0 <= s < MERKLE_TREE_DEPTH - 1 ==> region(
                page_layout(p),
                1 + (WORDS_PER_PAGE + WORDS_PER_HASH) * FE_PER_WORD + 8 * s,
                WORDS_PER_HASH * FE_PER_WORD,
            ) == (#[trigger] p.siblings@[s])@,
{
    lemma_flatten(p.siblings@);
    let l = page_layout(p);
    assert(region(l, 1 + WORDS_PER_PAGE * FE_PER_WORD, WORDS_PER_HASH * FE_PER_WORD) =~= p.hash@);
    assert forall|s: int| 0 <= s < MERKLE_TREE_DEPTH - 1 implies region(
        l,
        1 + (WORDS_PER_PAGE + WORDS_PER_HASH) * FE_PER_WORD + 8 * s,
        WORDS_PER_HASH * FE_PER_WORD,
    ) == (#[trigger] p.siblings@[s])@ by {
        let r = region(l, 1 + (WORDS_PER_PAGE + WORDS_PER_HASH) * FE_PER_WORD + 8 * s, WORDS_PER_HASH * FE_PER_WORD);
        assert forall|t: int| 0 <= t < WORDS_PER_HASH * FE_PER_WORD implies r[t] == p.siblings@[s]@[t] by {
            assert(flatten(p.siblings@)[8 * s + t] == p.siblings@[s]@[t]);
        }
        assert(r =~= p.siblings@[s]@);
    }
}

proof fn lemma_pages_layout(ps: Seq<PageInputs>)
    requires
        forall|k: int| 0 <= k < ps.len() ==> page_shaped(#[trigger] ps[k]),
    ensures
        pages_layout(ps).len() == BOOTLOADER_INPUTS_PER_PAGE * FE_PER_WORD * ps.len(),
        forall|k: int, off: int|
            #![trigger page_layout(ps[k])[off]]
            0 <= k < ps.len() && 0 <= off < BOOTLOADER_INPUTS_PER_PAGE * FE_PER_WORD ==> pages_layout(ps)[689 * k
                + off] == page_layout(ps[k])[off],
    decreases ps.len(),
{
    if ps.len() > 0 {
        let pre = ps.drop_last();
        assert forall|k: int| 0 <= k < pre.len() implies page_shaped(#[trigger] pre[k]) by {
            assert(pre[k] == ps[k]);
        }
        lemma_pages_layout(pre);
        assert(ps.last() == ps[ps.len() - 1]);
        lemma_page_layout(ps.last());
        assert forall|k: int, off: int|
            #![trigger page_layout(ps[k])[off]]
            0 <= k < ps.len() && 0 <= off < BOOTLOADER_INPUTS_PER_PAGE * FE_PER_WORD implies pages_layout(ps)[689 * k
            + off] == page_layout(ps[k])[off] by {
            if k < ps.len() - 1 {
                assert(pre[k] == ps[k]);
            }
        }
    }
}

/// The inputs that `BootloaderInputs::new` lays out are read back where the
/// accessors look for them: the PC among the initial registers, the root hash as
/// the initial and the final memory hash, and each page's hash and sibling hashes.
pub proof fn law_layout_is_read_back(
    regs: Seq<GoldilocksField>,
    root: Seq<GoldilocksField>,
    ps: Seq<PageInputs>,
    k: int,
    s: int,
)
    requires
        regs.len() == NUM_REGISTERS * FE_PER_WORD,
        root.len() == WORDS_PER_HASH * FE_PER_WORD,
        forall|q: int| 0 <= q < ps.len() ==> page_shaped(#[trigger] ps[q]),
        0 <= k < ps.len(),
        0 <= s < MERKLE_TREE_DEPTH - 1,
    ensures
        ({
            let v = initial_layout(regs, root, ps);
            &&& v[PC_INDEX as int] == regs[PC_INDEX as int]
            &&& region(v, MEMORY_HASH_START_INDEX * FE_PER_WORD, WORDS_PER_HASH * FE_PER_WORD) == root
            &&& region(v, final_root_start(), WORDS_PER_HASH * FE_PER_WORD) == root
            &&& v[NUM_PAGES_INDEX as int] == word_fe(ps.len() as u32)
            &&& region(v, page_hash_start(k), WORDS_PER_HASH * FE_PER_WORD) == ps[k].hash@
            &&& region(v, sibling_start(k, s), WORDS_PER_HASH * FE_PER_WORD) == ps[k].siblings@[s]@
        }),
{
    let v = initial_layout(regs, root, ps);
    let head = regs + regs + root + root + seq![word_fe(ps.len() as u32)];
    assert(head.len() == PAGE_INPUTS_OFFSET);
    lemma_pages_layout(ps);
    lemma_page_layout(ps[k]);
    assert(region(v, MEMORY_HASH_START_INDEX * FE_PER_WORD, WORDS_PER_HASH * FE_PER_WORD) =~= root);
    assert(region(v, final_root_start(), WORDS_PER_HASH * FE_PER_WORD) =~= root);
    let base = PAGE_INPUTS_OFFSET + 689 * k;
    assert forall|t: int| 0 <= t < WORDS_PER_HASH * FE_PER_WORD implies #[trigger] region(
        v,
        page_hash_start(k),
        WORDS_PER_HASH * FE_PER_WORD,
    )[t] == ps[k].hash@[t] by {
        assert(v[base + 513 + t] == pages_layout(ps)[689 * k + (513 + t)]);
        assert(region(page_layout(ps[k]), 513, 8)[t] == page_layout(ps[k])[513 + t]);
    }
    assert(region(v, page_hash_start(k), WORDS_PER_HASH * FE_PER_WORD) =~= ps[k].hash@);
    assert forall|t: int| 0 <= t < WORDS_PER_HASH * FE_PER_WORD implies #[trigger] region(
        v,
        sibling_start(k, s),
        WORDS_PER_HASH * FE_PER_WORD,
    )[t] == ps[k].siblings@[s]@[t] by {
        assert(v[base + 521 + 8 * s + t] == pages_layout(ps)[689 * k + (521 + 8 * s + t)]);
        assert(region(page_layout(ps[k]), 521 + 8 * s, 8)[t] == page_layout(ps[k])[521 + 8 * s + t]);
    }
    assert(region(v, sibling_start(k, s), WORDS_PER_HASH * FE_PER_WORD) =~= ps[k].siblings@[s]@);
}

} // verus!
