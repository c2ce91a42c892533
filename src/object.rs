use crate::graph::{out_edges, Graph};
use crate::tables::{function_sizes, FunctionTable};
use iced_x86::{Decoder, MemorySize, Mnemonic};
use vstd::prelude::*;
use vstd::string::*;

verus! {

#[verifier::external_type_specification]
#[verifier::external_body]
pub struct ExMnemonic(Mnemonic);

/// The number of instructions that decoding `code` as 64-bit x86 yields.
pub uninterp spec fn instruction_count(code: Seq<u8>) -> nat;

/// What decoding `code` as 64-bit x86 yields, one entry per instruction: whether its mnemonic
/// is `Call`, whether it is `Jmp`, its memory displacement, and whether its memory size is
/// `QwordOffset`.
pub uninterp spec fn branches_of(code: Seq<u8>) -> Seq<(bool, bool, u64, bool)>;

/// Whether a decoded instruction is a call or a jump.
pub open spec fn is_branch(d: (bool, bool, u64, bool)) -> bool {
    d.0 || d.1
}

/// Relies on `iced_x86::Decoder` (64-bit, from instruction pointer 0) and on
/// `Instruction::mnemonic`: the mnemonics of the decoded instructions of `code[start..end]`.
#[verifier::external_body]
fn decode_mnemonics(code: &[u8], start: usize, end: usize) -> (r: Vec<Mnemonic>)
    requires
        start <= end <= code@.len(),
    ensures
        r@.len() == instruction_count(code@.subrange(start as int, end as int)),
{
    Decoder::new(64, &code[start..end], 0).into_iter().map(|i| i.mnemonic()).collect()
}

/// Relies on `iced_x86::Decoder` (64-bit, from instruction pointer 0) and on
/// `Instruction::mnemonic`, `memory_displacement64` and `memory_size`: for each decoded
/// instruction of `code[start..end]`, whether its mnemonic is `Call`, whether it is `Jmp`, its
/// displacement, and whether its memory size is `QwordOffset`.
#[verifier::external_body]
fn decode_branches(code: &[u8], start: usize, end: usize) -> (r: Vec<(bool, bool, u64, bool)>)
    requires
        start <= end <= code@.len(),
    ensures
        r@ == branches_of(code@.subrange(start as int, end as int)),
{
    Decoder::new(64, &code[start..end], 0).into_iter().map(
        |i| (
            i.mnemonic() == Mnemonic::Call,
            i.mnemonic() == Mnemonic::Jmp,
            i.memory_displacement64(),
            i.memory_size() == MemorySize::QwordOffset,
        ),
    ).collect()
}

/// The byte sequences that pad functions to their alignment.
pub open spec fn align_seqs() -> Seq<Seq<u8>> {
    seq![
        seq![0xCCu8, 0xCC],
        seq![0x0Fu8, 0x1F, 0x00],
        seq![0x0Fu8, 0x1F, 0x40, 0x00],
        seq![0x0Fu8, 0x1F, 0x44, 0x00, 0x00],
        seq![0x0Fu8, 0x1F, 0x80, 0x00, 0x00, 0x00, 0x00],
        seq![0x0Fu8, 0x1F, 0x84, 0x00, 0x00, 0x00, 0x00, 0x00],
    ]
}

/// Whether `s` holds `pat` from position `i` on.
pub open spec fn starts_with_at(s: Seq<u8>, i: int, pat: Seq<u8>) -> bool {
    0 <= i && i + pat.len() <= s.len() && s.subrange(i, i + pat.len()) == pat
}

/// Whether alignment padding starts at position `i` of `s`.
pub open spec fn align_at(s: Seq<u8>, i: int) -> bool {
    exists|k: int| 0 <= k < align_seqs().len() && starts_with_at(s, i, #[trigger] align_seqs()[k])
}

/// Whether `s` starts with the end of a function: a call (opcode and four bytes of offset) or
/// a return, followed by alignment padding.
pub open spec fn is_endp_spec(s: Seq<u8>) -> bool {
    (s.len() >= 5 && s[0] == 0xE8 && align_at(s, 5)) || (s.len() >= 1 && s[0] == 0xC3 && align_at(s, 1))
}

/// The alignment sequence `k`.
fn align_pattern(k: usize) -> (r: Vec<u8>)
    requires
        k < 6,
    ensures
        r@ == align_seqs()[k as int],
{
    let mut v: Vec<u8> = Vec::new();
    if k == 0 {
        v.push(0xCC);
        v.push(0xCC);
    } else {
        v.push(0x0F);
        v.push(0x1F);
        if k == 1 {
            v.push(0x00);
        } else if k == 2 {
            v.push(0x40);
            v.push(0x00);
        } else if k == 3 {
            v.push(0x44);
            v.push(0x00);
            v.push(0x00);
        } else {
            if k == 4 {
                v.push(0x80);
            } else {
                v.push(0x84);
                v.push(0x00);
            }
            v.push(0x00);
            v.push(0x00);
            v.push(0x00);
            v.push(0x00);
        }
    }
    proof {
        assert(v@ =~= align_seqs()[k as int]);
    }
    v
}

/// Whether `s[start..end]` holds `pat` from position `start + i` on.
fn starts_with_in(s: &[u8], start: usize, end: usize, i: usize, pat: &Vec<u8>) -> (r: bool)
    requires
        start <= end <= s@.len(),
    ensures
        r == starts_with_at(s@.subrange(start as int, end as int), i as int, pat@),
{
    let ghost w = s@.subrange(start as int, end as int);
    if i > end - start || pat.len() > end - start - i {
        return false;
    }
    let mut k: usize = 0;
    while k < pat.len()
        invariant
            k <= pat@.len(),
            start <= end <= s@.len(),
            w == s@.subrange(start as int, end as int),
            i + pat@.len() <= end - start,
            forall|m: int| 0 <= m < k ==> w[i + m] == pat@[m],
        decreases pat@.len() - k,
    {
        if s[start + i + k] != pat[k] {
            proof {
                assert(w.subrange(i as int, i + pat@.len())[k as int] != pat@[k as int]);
            }
            return false;
        }
        k += 1;
    }
    proof {
        assert(w.subrange(i as int, i + pat@.len()) =~= pat@);
    }
    true
}

/// Whether alignment padding starts at position `i` of `s[start..end]`.
fn align_in(s: &[u8], start: usize, end: usize, i: usize) -> (r: bool)
    requires
        start <= end <= s@.len(),
    ensures
        r == align_at(s@.subrange(start as int, end as int), i as int),
{
    let ghost w = s@.subrange(start as int, end as int);
    let mut k: usize = 0;
    while k < 6
        invariant
            k <= 6,
            start <= end <= s@.len(),
            w == s@.subrange(start as int, end as int),
            forall|m: int| 0 <= m < k ==> !starts_with_at(w, i as int, #[trigger] align_seqs()[m]),
        decreases 6 - k,
    {
        let pat = align_pattern(k);
        if starts_with_in(s, start, end, i, &pat) {
            return true;
        }
        k += 1;
    }
    false
}

/// Whether `s[start..end]` starts with the end of a function.
fn is_endp_in(s: &[u8], start: usize, end: usize) -> (r: bool)
    requires
        start <= end <= s@.len(),
    ensures
        r == is_endp_spec(s@.subrange(start as int, end as int)),
{
    let n = end - start;
    if n >= 5 && s[start] == 0xE8 {
        if align_in(s, start, end, 5) {
            return true;
        }
    }
    if n >= 1 && s[start] == 0xC3 {
        return align_in(s, start, end, 1);
    }
    false
}

/// Whether the slice starts with the end of a function: a call or a return followed by
/// alignment padding.
pub fn is_endp(slice: &[u8]) -> (r: bool)
    ensures
        r == is_endp_spec(slice@),
{
    proof {
        assert(slice@.subrange(0, slice@.len() as int) =~= slice@);
    }
    is_endp_in(slice, 0, slice.len())
}

/// Metadata of one function: the mnemonics of its instructions, in order.
#[derive(Clone)]
pub struct FunctionMetadata {
    opcodes: Vec<Mnemonic>,
}

impl View for FunctionMetadata {
    type V = Seq<Mnemonic>;

    closed spec fn view(&self) -> Seq<Mnemonic> {
        self.opcodes@
    }
}

impl FunctionMetadata {
    /// Creates metadata from a list of mnemonics.
    pub fn new(opcodes: Vec<Mnemonic>) -> (r: Self)
        ensures
            r@ == opcodes@,
    {
        FunctionMetadata { opcodes }
    }

    /// Metadata of a function with no known instructions.
    pub fn empty() -> (r: Self)
        ensures
            r@.len() == 0,
    {
        FunctionMetadata { opcodes: Vec::new() }
    }

    /// Decodes 64-bit code into the metadata of one function.
    pub fn from_slice(slice: &[u8]) -> (r: Self)
        ensures
            r@.len() == instruction_count(slice@),
    {
        proof {
            assert(slice@.subrange(0, slice@.len() as int) =~= slice@);
        }
        Self::from_code(slice, 0, slice.len())
    }

    /// Decodes the code `code[start..end]`.
    fn from_code(code: &[u8], start: usize, end: usize) -> (r: Self)
        requires
            start <= end <= code@.len(),
        ensures
            r@.len() == instruction_count(code@.subrange(start as int, end as int)),
    {
        FunctionMetadata { opcodes: decode_mnemonics(code, start, end) }
    }

    /// Returns the mnemonics.
    pub fn opcodes(&self) -> (r: &[Mnemonic])
        ensures
            r@ == self@,
    {
        self.opcodes.as_slice()
    }
}

/// Metadata for the code of one object file: its call graph and its functions.
pub struct CodeMetadata {
    call_graph: Graph,
    functions: FunctionTable,
}

impl CodeMetadata {
    /// The call graph, keyed by relative addresses.
    pub closed spec fn graph_spec(&self) -> Graph {
        self.call_graph
    }

    /// The number of opcodes of each known function.
    pub closed spec fn sizes(&self) -> Map<u64, nat> {
        function_sizes(self.functions)
    }

    /// The call graph is well formed.
    pub open spec fn wf(&self) -> bool {
        self.graph_spec().wf()
    }

    /// Every target of a call has metadata.
    pub open spec fn covers_targets(&self) -> bool {
        forall|a: u64, i: int|
            self.graph_spec()@.dom().contains(a) && 0 <= i < self.graph_spec()@[a].len()
                ==> self.sizes().dom().contains(#[trigger] self.graph_spec()@[a][i])
    }

    /// Creates metadata with no functions and no calls.
    pub fn new() -> (r: Self)
        ensures
            r.wf(),
            r.covers_targets(),
            r.graph_spec()@ == crate::graph::no_edges(),
            r.sizes() == crate::tables::no_functions(),
    {
        CodeMetadata { call_graph: Graph::new(), functions: FunctionTable::new() }
    }

    /// Records the metadata of the function at `addr`.
    pub fn insert_function(&mut self, addr: u64, f: FunctionMetadata)
        requires
            old(self).wf(),
        ensures
            final(self).wf(),
            final(self).graph_spec() == old(self).graph_spec(),
            final(self).sizes() == old(self).sizes().insert(addr, f@.len()),
            old(self).covers_targets() ==> final(self).covers_targets(),
    {
        self.functions.insert(addr, f);
    }

    /// Records a call from `a` to `b`, after the earlier calls of `a`.
    pub fn add_call(&mut self, a: u64, b: u64)
        requires
            old(self).wf(),
            out_edges(old(self).graph_spec()@, a).len() < usize::MAX,
        ensures
            final(self).wf(),
            final(self).graph_spec()@ == old(self).graph_spec()@.insert(
                a,
                out_edges(old(self).graph_spec()@, a).push(b),
            ),
            final(self).sizes() == old(self).sizes(),
            final(self).graph_spec().max_degree_spec() >= old(self).graph_spec().max_degree_spec(),
            old(self).covers_targets() && old(self).sizes().dom().contains(b)
                ==> final(self).covers_targets(),
    {
        let ghost before = self.call_graph@;
        self.call_graph.add_edge(a, b);
        proof {
            if old(self).covers_targets() && old(self).sizes().dom().contains(b) {
                assert forall|x: u64, i: int|
                    self.graph_spec()@.dom().contains(x) && 0 <= i < self.graph_spec()@[x].len()
                        implies self.sizes().dom().contains(
                    #[trigger] self.graph_spec()@[x][i],
                ) by {
                    if x == a && i < out_edges(before, a).len() {
                        assert(self.graph_spec()@[x][i] == before[x][i]);
                    } else if x != a {
                        assert(self.graph_spec()@[x] == before[x]);
                    }
                }
            }
        }
    }

    /// Returns the call graph with relative addresses as vertices.
    pub fn call_graph(&self) -> (r: &Graph)
        ensures
            *r == self.graph_spec(),
    {
        &self.call_graph
    }

    /// Returns the function metadata for the given relative address.
    pub fn get_function(&self, addr: u64) -> (r: Option<&FunctionMetadata>)
        ensures
            r.is_some() == self.sizes().dom().contains(addr),
            r.is_some() ==> r.unwrap()@.len() == self.sizes()[addr],
    {
        self.functions.get(addr)
    }
}

/// The length of the function at `addr` in the text `seg`, searching from offset `p` on: the
/// offset of the first 16-byte window that starts with the end of a function, or the rest of
/// the text when no such window exists.
pub open spec fn endp_from(seg: Seq<u8>, addr: int, p: int) -> int
    decreases seg.len() - addr - p,
{
    if addr + p + 16 > seg.len() || p < 0 {
        seg.len() - addr
    } else if is_endp_spec(seg.subrange(addr + p, addr + p + 16)) {
        p
    } else {
        endp_from(seg, addr, p + 1)
    }
}

/// The length of the function at `addr`.
fn function_length(seg: &[u8], addr: usize) -> (r: usize)
    requires
        addr <= seg@.len(),
    ensures
        r == endp_from(seg@, addr as int, 0),
        addr + r <= seg@.len(),
{
    let mut p: usize = 0;
    while 16 <= seg.len() - addr - p && !is_endp_in(seg, addr + p, addr + p + 16)
        invariant
            addr <= seg@.len(),
            p <= seg@.len() - addr,
            endp_from(seg@, addr as int, p as int) == endp_from(seg@, addr as int, 0),
        decreases seg@.len() - addr - p,
    {
        p += 1;
    }
    if 16 <= seg.len() - addr - p {
        p
    } else {
        seg.len() - addr
    }
}

/// Where a call or jump of the function at `cur` leads, from its displacement: a qword offset
/// is added to `cur`; otherwise the displacement is signed, and one that would lead below
/// address 0 leads nowhere.
pub open spec fn branch_target(cur: u64, disp: u64, qword: bool) -> Option<u64> {
    if qword {
        Some(cur.wrapping_add(disp))
    } else if disp >= 0x8000_0000_0000_0000 {
        let back = u64::MAX - disp + 1;
        if back > cur {
            None
        } else {
            Some((cur - back) as u64)
        }
    } else {
        Some(cur.wrapping_add(disp))
    }
}

/// Whether the function at `a` in the text `seg` has a decoded call or jump that leads to
/// `b` outside its own body.
pub open spec fn calls_out(seg: Seq<u8>, a: u64, b: u64) -> bool {
    let len = endp_from(seg, a as int, 0);
    let branches = branches_of(seg.subrange(a as int, a + len));
    exists|k: int|
        0 <= k < branches.len() && is_branch(#[trigger] branches[k]) && branch_target(
            a,
            branches[k].2,
            branches[k].3,
        ) == Some(b) && !(a <= b && b < a + len)
}

/// Every call edge of `g0` stays in `g` in its place: the earlier out-edges of each vertex
/// are a prefix of its out-edges now.
pub open spec fn edges_kept(g0: Map<u64, Seq<u64>>, g: Map<u64, Seq<u64>>) -> bool {
    forall|a: u64|
        #![trigger out_edges(g, a)]
        out_edges(g0, a).len() <= out_edges(g, a).len() && out_edges(g, a).subrange(
            0,
            out_edges(g0, a).len() as int,
        ) == out_edges(g0, a)
}

/// A finite set of addresses no larger than `bound` has at most `bound + 1` elements.
proof fn lemma_bounded_len(s: Set<u64>, bound: nat)
    requires
        s.finite(),
        forall|v: u64| #[trigger] s.contains(v) ==> v <= bound,
    ensures
        s.len() <= bound + 1,
    decreases bound,
{
    if bound > u64::MAX {
        lemma_bounded_len(s, u64::MAX as nat);
    } else if bound == 0 {
        assert(s.subset_of(set![0u64]));
        vstd::set_lib::lemma_len_subset(s, set![0u64]);
    } else {
        let t = s.remove(bound as u64);
        lemma_bounded_len(t, (bound - 1) as nat);
    }
}

impl CodeMetadata {
    /// Every call edge is one that the decoded code of its source function makes.
    pub open spec fn calls_from_code(&self, seg: Seq<u8>) -> bool {
        forall|a: u64, i: int|
            self.graph_spec()@.dom().contains(a) && 0 <= i < self.graph_spec()@[a].len()
                ==> calls_out(seg, a, #[trigger] self.graph_spec()@[a][i])
    }

    /// Every vertex of the call graph lies within the text and has metadata.
    pub open spec fn vertices_within(&self, len: nat) -> bool {
        forall|v: u64| #[trigger]
            self.graph_spec()@.dom().contains(v) ==> v <= len && self.sizes().dom().contains(v)
    }

    /// Loads the functions reachable through calls and jumps from the entrypoint of the
    /// object code and from the given seed addresses.
    pub fn load(obj: &ObjectCode, seeds: &[u64]) -> (r: Self)
        requires
            obj.entry_spec() >= obj.base_spec(),
            obj.entry_spec() - obj.base_spec() <= obj.text_spec().len(),
            forall|k: int| 0 <= k < seeds@.len() ==> #[trigger] seeds@[k] <= obj.text_spec().len(),
        ensures
            r.wf(),
            r.covers_targets(),
            r.calls_from_code(obj.text_spec()),
            r.sizes().dom().contains((obj.entry_spec() - obj.base_spec()) as u64),
            forall|k: int| 0 <= k < seeds@.len() ==> r.sizes().dom().contains(#[trigger] seeds@[k]),
    {
        let slice = obj.text();
        let mut object = Self::new();
        let entry = obj.entrypoint();
        object.load_func(entry, slice);
        let mut k: usize = 0;
        while k < seeds.len()
            invariant
                k <= seeds@.len(),
                entry == obj.entry_spec() - obj.base_spec(),
                object.sizes().dom().contains(entry),
                forall|j: int| 0 <= j < k ==> object.sizes().dom().contains(#[trigger] seeds@[j]),
                slice@ == obj.text_spec(),
                forall|k: int| 0 <= k < seeds@.len() ==> #[trigger] seeds@[k] <= obj.text_spec().len(),
                object.wf(),
                object.covers_targets(),
                object.calls_from_code(slice@),
                object.vertices_within(slice@.len()),
            decreases seeds@.len() - k,
        {
            object.load_func(seeds[k], slice);
            k += 1;
        }
        object
    }

    /// Loads the function at `addr` and, through a work list, every function it reaches by a
    /// call or a jump that lies within the text; targets outside the text get empty metadata.
    fn load_func(&mut self, addr: u64, segment: &[u8])
        requires
            old(self).wf(),
            old(self).covers_targets(),
            old(self).vertices_within(segment@.len()),
            old(self).calls_from_code(segment@),
            addr <= segment@.len(),
        ensures
            final(self).wf(),
            final(self).covers_targets(),
            final(self).calls_from_code(segment@),
            final(self).vertices_within(segment@.len()),
            final(self).sizes().dom().contains(addr),
            old(self).sizes().dom().subset_of(final(self).sizes().dom()),
            edges_kept(old(self).graph_spec()@, final(self).graph_spec()@),
            old(self).graph_spec()@.dom().contains(addr) ==> final(self).graph_spec()@ == old(
                self,
            ).graph_spec()@ && final(self).sizes() == old(self).sizes(),
    {
        let ghost sizes0 = self.sizes().dom();
        let ghost g0 = self.graph_spec()@;
        let ghost s0 = self.sizes();
        let ghost loaded = g0.dom().contains(addr);
        let ghost bound = segment@.len();
        let seg_len = segment.len();
        let mut work: Vec<u64> = Vec::new();
        work.push(addr);
        proof {
            assert(work@[0] == addr);
            assert(work@ =~= seq![addr]);
            self.call_graph.lemma_targets(0);
            lemma_bounded_len(self.graph_spec()@.dom(), bound);
            assert forall|a: u64| #![trigger out_edges(g0, a)]
                out_edges(g0, a).subrange(0, out_edges(g0, a).len() as int) == out_edges(g0, a) by {
                assert(out_edges(g0, a).subrange(0, out_edges(g0, a).len() as int) =~= out_edges(g0, a));
            }
        }
        loop
            invariant
                bound == segment@.len(),
                seg_len == bound,
                self.wf(),
                self.calls_from_code(segment@),
                self.vertices_within(bound),
                forall|i: int| 0 <= i < work@.len() ==> #[trigger] work@[i] <= bound,
                forall|a: u64, i: int|
                    self.graph_spec()@.dom().contains(a) && 0 <= i < self.graph_spec()@[a].len()
                        ==> self.sizes().dom().contains(#[trigger] self.graph_spec()@[a][i])
                        || work@.contains(self.graph_spec()@[a][i]),
                self.graph_spec()@.dom().len() <= bound + 1,
                sizes0.subset_of(self.sizes().dom()),
                self.sizes().dom().contains(addr) || work@.contains(addr),
                edges_kept(g0, self.graph_spec()@),
                loaded ==> self.graph_spec()@ == g0 && self.sizes() == s0 && (work@ == seq![addr]
                    || work@.len() == 0),
                loaded == g0.dom().contains(addr),
            ensures
                edges_kept(g0, self.graph_spec()@),
                loaded ==> self.graph_spec()@ == g0 && self.sizes() == s0,
                self.wf(),
                self.covers_targets(),
                self.calls_from_code(segment@),
                self.vertices_within(bound),
                sizes0.subset_of(self.sizes().dom()),
                self.sizes().dom().contains(addr),
            decreases bound + 1 - self.graph_spec()@.dom().len(), work@.len(),
        {
            let ghost work0 = work@;
            let cur = match work.pop() {
                None => {
                    break;
                },
                Some(a) => a,
            };
            let ghost dom0 = self.graph_spec()@.dom();
            proof {
                assert(work0 == work@.push(cur));
                assert forall|t: u64| work0.contains(t) && t != cur implies work@.contains(t) by {
                    let i = choose|i: int| 0 <= i < work0.len() && work0[i] == t;
                    assert(work@[i] == t);
                }
                assert(cur == work0[work0.len() - 1]);
                assert(cur <= bound);
                self.call_graph.lemma_targets(0);
            }
            if self.call_graph.has_vertex(cur) {
                continue;
            }
            let start = cur as usize;
            let len = function_length(segment, start);
            self.functions.insert(cur, FunctionMetadata::from_code(segment, start, start + len));
            let branches = decode_branches(segment, start, start + len);
            let ghost work1 = work@;
            let mut k: usize = 0;
            while k < branches.len()
                invariant
                    bound == segment@.len(),
                    seg_len == bound,
                    start == cur,
                    len == endp_from(segment@, cur as int, 0),
                    branches@ == branches_of(segment@.subrange(cur as int, cur + len)),
                    k <= branches@.len(),
                    self.calls_from_code(segment@),
                    start + len <= bound,
                    !dom0.contains(cur),
                    dom0.finite(),
                    dom0.len() <= bound + 1,
                    self.wf(),
                    self.vertices_within(bound),
                    self.sizes().dom().contains(cur),
                    sizes0.subset_of(self.sizes().dom()),
                    edges_kept(g0, self.graph_spec()@),
                    !loaded,
                    self.sizes().dom().contains(addr) || work@.contains(addr),
                    self.graph_spec()@.dom() == dom0 || self.graph_spec()@.dom() == dom0.insert(cur),
                    self.graph_spec()@.dom() == dom0 ==> work@.len() == work1.len(),
                    forall|i: int| 0 <= i < work@.len() ==> #[trigger] work@[i] <= bound,
                    forall|a: u64, i: int|
                        self.graph_spec()@.dom().contains(a) && 0 <= i < self.graph_spec()@[a].len()
                            ==> self.sizes().dom().contains(#[trigger] self.graph_spec()@[a][i])
                            || work@.contains(self.graph_spec()@[a][i]),
                decreases branches@.len() - k,
            {
                let (is_call, is_jmp, disp, qword) = branches[k];
                k += 1;
                if !(is_call || is_jmp) {
                    continue;
                }
                let ghost kk = (k - 1) as int;
                let next_addr: u64 = if qword {
                    cur.wrapping_add(disp)
                } else if disp >= 0x8000_0000_0000_0000 {
                    let back = u64::MAX - disp + 1;
                    if back > cur {
                        continue;
                    }
                    cur - back
                } else {
                    cur.wrapping_add(disp)
                };
                let end_addr = cur + len as u64;
                // a vertex cannot hold more call edges than memory can index
                if !(cur <= next_addr && next_addr < end_addr) && self.call_graph.degree(cur)
                    < usize::MAX {
                    let ghost gb = self.graph_spec()@;
                    let ghost w0 = work@;
                    self.call_graph.add_edge(cur, next_addr);
                    if next_addr < segment.len() as u64 {
                        work.push(next_addr);
                    } else {
                        self.functions.insert(next_addr, FunctionMetadata::empty());
                    }
                    proof {
                        let g = self.graph_spec()@;
                        assert(g.dom() =~= dom0.insert(cur));
                        assert forall|a: u64| #![trigger out_edges(g, a)]
                            out_edges(g0, a).len() <= out_edges(g, a).len() && out_edges(g, a).subrange(
                                0,
                                out_edges(g0, a).len() as int,
                            ) == out_edges(g0, a) by {
                            let n0 = out_edges(g0, a).len() as int;
                            assert(out_edges(g0, a).len() <= out_edges(gb, a).len());
                            assert(out_edges(gb, a).subrange(0, n0) == out_edges(g0, a));
                            if a == cur {
                                assert(out_edges(g, a) == out_edges(gb, a).push(next_addr));
                                assert(out_edges(g, a).subrange(0, n0) =~= out_edges(gb, a).subrange(0, n0));
                            } else {
                                assert(out_edges(g, a) == out_edges(gb, a));
                            }
                        }
                        assert(branch_target(cur, disp, qword) == Some(next_addr));
                        assert(branches@[kk] == (is_call, is_jmp, disp, qword));
                        assert(calls_out(segment@, cur, next_addr));
                        assert forall|a: u64, i: int|
                            g.dom().contains(a) && 0 <= i < g[a].len() implies calls_out(
                            segment@,
                            a,
                            #[trigger] g[a][i],
                        ) by {
                            if a == cur && i == g[a].len() - 1 {
                            } else if a == cur {
                                assert(g[a][i] == gb[a][i]);
                            } else {
                                assert(g[a] == gb[a]);
                            }
                        }
                        assert forall|t: u64| w0.contains(t) implies work@.contains(t) by {
                            let i = choose|i: int| 0 <= i < w0.len() && w0[i] == t;
                            assert(work@[i] == t);
                        }
                        assert forall|a: u64, i: int|
                            g.dom().contains(a) && 0 <= i < g[a].len() implies self.sizes().dom().contains(
                            #[trigger] g[a][i],
                        ) || work@.contains(g[a][i]) by {
                            if a == cur && i == g[a].len() - 1 {
                                if next_addr < bound {
                                    assert(work@[work@.len() - 1] == next_addr);
                                }
                            } else if a == cur {
                                assert(g[a][i] == gb[a][i]);
                            } else {
                                assert(g[a] == gb[a]);
                            }
                        }
                    }
                }
            }
            proof {
                self.call_graph.lemma_targets(0);
                if self.graph_spec()@.dom() == dom0.insert(cur) {
                    lemma_bounded_len(self.graph_spec()@.dom(), bound);
                }
            }
        }
    }
}

/// The text section of an object file: its base address and its bytes.
pub struct TextSection {
    pub address: u64,
    pub data: Vec<u8>,
}

/// The code of an object file: its text section and its entry address.
pub struct ObjectCode {
    text_base: u64,
    text: Vec<u8>,
    entry: u64,
}

/// Errors met while loading code.
pub enum Error {
    /// The object file has no text section.
    MissingTextSection,
    /// Another failure, with its message.
    Other(String),
}

impl Error {
    /// A message describing the error.
    pub fn message(&self) -> (r: String)
        ensures
            self is MissingTextSection ==> r@ == "missing .text section"@,
            self is Other ==> r@ == self->Other_0@,
    {
        match self {
            Error::MissingTextSection => String::from_str("missing .text section"),
            Error::Other(m) => m.clone(),
        }
    }
}

impl ObjectCode {
    /// The base address of the text section.
    pub closed spec fn base_spec(&self) -> u64 {
        self.text_base
    }

    /// The bytes of the text section.
    pub closed spec fn text_spec(&self) -> Seq<u8> {
        self.text@
    }

    /// The absolute entry address.
    pub closed spec fn entry_spec(&self) -> u64 {
        self.entry
    }

    /// Loads code from the text section of an object file, if it has one, and its entry
    /// address.
    pub fn load(text: Option<TextSection>, entry: u64) -> (r: Result<Self, Error>)
        ensures
            text is None <==> r is Err,
            r is Err ==> r->Err_0 is MissingTextSection,
            text is Some ==> r is Ok && r->Ok_0.base_spec() == text->Some_0.address
                && r->Ok_0.text_spec() == text->Some_0.data@ && r->Ok_0.entry_spec() == entry,
    {
        match text {
            None => Err(Error::MissingTextSection),
            Some(t) => Ok(ObjectCode { text_base: t.address, text: t.data, entry }),
        }
    }

    /// Returns the relative address of the entrypoint in the text section.
    pub fn entrypoint(&self) -> (r: u64)
        requires
            self.entry_spec() >= self.base_spec(),
        ensures
            r == self.entry_spec() - self.base_spec(),
    {
        self.entry - self.text_base
    }

    /// Returns the base address of the text section.
    pub fn text_section_base(&self) -> (r: u64)
        ensures
            r == self.base_spec(),
    {
        self.text_base
    }

    /// Returns the bytes of the text section.
    pub fn text(&self) -> (r: &[u8])
        ensures
            r@ == self.text_spec(),
    {
        self.text.as_slice()
    }
}

} // verus!
