//! Hashing identity of builds and their input sets.

use crate::db::BuildHash;
use crate::graph::{lemma_dependency_in_bounds, BuildGraph, BuildId, BuildMethod, BuildNode, FileId};
use crate::bytes::{le_value, read_le_u128};
use vstd::prelude::*;
use vstd::utf8::encode_utf8;
use vstd::wrapping::u128_specs;

verus! {

/// The 128-bit XXH3 hash of a byte string.
pub uninterp spec fn xxh3_128(data: Seq<u8>) -> u128;

/// The 32-byte BLAKE3 digest of a byte string.
pub uninterp spec fn blake3_digest(data: Seq<u8>) -> Seq<u8>;

/// `twox_hash::XxHash3_128::oneshot`: the XXH3-128 hash of the bytes.
#[verifier::external_body]
fn xxh3_128_oneshot(data: &[u8]) -> (h: u128)
    ensures
        h == xxh3_128(data@),
{
    twox_hash::XxHash3_128::oneshot(data)
}

/// `blake3::hash`: the BLAKE3 digest of the bytes.
#[verifier::external_body]
fn blake3_hash(data: &[u8]) -> (h: [u8; 32])
    ensures
        h@ == blake3_digest(data@),
{
    *blake3::hash(data).as_bytes()
}

/// The UTF-8 encoding of a string.
pub open spec fn utf8(s: Seq<char>) -> Seq<u8> {
    encode_utf8(s)
}

/// Each string, UTF-8 encoded and followed by a zero byte.
pub open spec fn nul_joined(parts: Seq<Seq<char>>) -> Seq<u8>
    decreases parts.len(),
{
    if parts.len() == 0 {
        Seq::empty()
    } else {
        nul_joined(parts.drop_last()) + utf8(parts.last()) + seq![0u8]
    }
}

/// The views of a vector of strings.
pub open spec fn string_views(v: Seq<String>) -> Seq<Seq<char>> {
    v.map_values(|s: String| s@)
}

/// The bytes that identify a build method. The number of arguments of a
/// command comes before them, so where the arguments end is marked and an
/// argument cannot be taken for an output path.
pub open spec fn command_stream(m: BuildMethod) -> Seq<u8> {
    match m {
        BuildMethod::SubCommand(c) => utf8("subcmd\0"@) + utf8(c.executable@) + seq![0u8]
            + le_bytes_usize(c.args.len()) + nul_joined(string_views(c.args@)),
        BuildMethod::Callback(name) => utf8("callback\0"@) + utf8(name@),
        BuildMethod::Phony => utf8("phony\0"@),
    }
}

/// The paths of a list of file ids.
pub open spec fn paths_of(ids: Seq<FileId>, files: Seq<Seq<char>>) -> Seq<Seq<char>> {
    ids.map_values(|f: FileId| files[f.0 as int])
}

/// The bytes hashed to identify a build: its method, then its output paths.
pub open spec fn build_hash_stream(node: BuildNode, files: Seq<Seq<char>>) -> Seq<u8> {
    command_stream(node.command) + utf8("out\0"@) + nul_joined(paths_of(node.outs@, files))
}

/// The big-endian bytes of a 128-bit integer.
pub open spec fn be_bytes_u128(v: u128) -> Seq<u8> {
    Seq::new(16, |i: int| (v >> ((8 * (15 - i)) as u32)) as u8)
}

/// The little-endian bytes of a 128-bit integer.
pub open spec fn le_bytes_u128(v: u128) -> Seq<u8> {
    Seq::new(16, |i: int| (v >> ((8 * i) as u32)) as u8)
}

/// The little-endian bytes of a `usize`, as wide as a `usize`.
pub open spec fn le_bytes_usize(v: usize) -> Seq<u8> {
    Seq::new((usize::BITS / 8) as nat, |i: int| (v >> ((8 * i) as u32)) as u8)
}

/// Different numbers have different little-endian bytes.
pub(crate) proof fn lemma_le_bytes_usize_injective(a: usize, b: usize)
    requires
        le_bytes_usize(a) == le_bytes_usize(b),
    ensures
        a == b,
{
    let la = le_bytes_usize(a);
    let lb = le_bytes_usize(b);
    assert(la[0] == lb[0] && la[1] == lb[1] && la[2] == lb[2] && la[3] == lb[3]);
    let (a0, a1, a2, a3) = ((a >> 0u32) as u8, (a >> 8u32) as u8, (a >> 16u32) as u8, (a >> 24u32) as u8);
    let (b0, b1, b2, b3) = ((b >> 0u32) as u8, (b >> 8u32) as u8, (b >> 16u32) as u8, (b >> 24u32) as u8);
    assert(a0 == b0 && a1 == b1 && a2 == b2 && a3 == b3);
    if usize::BITS == 64 {
        assert(la[4] == lb[4] && la[5] == lb[5] && la[6] == lb[6] && la[7] == lb[7]);
        let (a4, a5, a6, a7) = ((a >> 32u32) as u8, (a >> 40u32) as u8, (a >> 48u32) as u8, (a >> 56u32) as u8);
        let (b4, b5, b6, b7) = ((b >> 32u32) as u8, (b >> 40u32) as u8, (b >> 48u32) as u8, (b >> 56u32) as u8);
        assert(a4 == b4 && a5 == b5 && a6 == b6 && a7 == b7);
        assert(a == b) by (bit_vector)
            requires
                usize::BITS == 64,
                (a >> 0u32) as u8 == (b >> 0u32) as u8,
                (a >> 8u32) as u8 == (b >> 8u32) as u8,
                (a >> 16u32) as u8 == (b >> 16u32) as u8,
                (a >> 24u32) as u8 == (b >> 24u32) as u8,
                (a >> 32u32) as u8 == (b >> 32u32) as u8,
                (a >> 40u32) as u8 == (b >> 40u32) as u8,
                (a >> 48u32) as u8 == (b >> 48u32) as u8,
                (a >> 56u32) as u8 == (b >> 56u32) as u8,
        ;
    } else {
        assert(a == b) by (bit_vector)
            requires
                usize::BITS == 32,
                (a >> 0u32) as u8 == (b >> 0u32) as u8,
                (a >> 8u32) as u8 == (b >> 8u32) as u8,
                (a >> 16u32) as u8 == (b >> 16u32) as u8,
                (a >> 24u32) as u8 == (b >> 24u32) as u8,
        ;
    }
}

/// Two commands of the same program with different numbers of arguments
/// are hashed from different bytes, whatever their outputs: an argument is
/// never taken for an output path.
pub proof fn lemma_argument_count_separates(n1: BuildNode, f1: Seq<Seq<char>>, n2: BuildNode, f2: Seq<Seq<char>>)
    requires
        n1.command is SubCommand,
        n2.command is SubCommand,
        n1.command->SubCommand_0.executable@ == n2.command->SubCommand_0.executable@,
        n1.command->SubCommand_0.args.len() != n2.command->SubCommand_0.args.len(),
    ensures
        build_hash_stream(n1, f1) != build_hash_stream(n2, f2),
{
    let c1 = n1.command->SubCommand_0;
    let c2 = n2.command->SubCommand_0;
    let pre = utf8("subcmd\0"@) + utf8(c1.executable@) + seq![0u8];
    let l1 = le_bytes_usize(c1.args.len());
    let l2 = le_bytes_usize(c2.args.len());
    let s1 = build_hash_stream(n1, f1);
    let s2 = build_hash_stream(n2, f2);
    let r1 = nul_joined(string_views(c1.args@)) + utf8("out\0"@) + nul_joined(paths_of(n1.outs@, f1));
    let r2 = nul_joined(string_views(c2.args@)) + utf8("out\0"@) + nul_joined(paths_of(n2.outs@, f2));
    assert(s1 =~= pre + l1 + r1);
    assert(s2 =~= pre + l2 + r2);
    if s1 == s2 {
        assert(l1 =~= l2) by {
            assert forall|k: int| 0 <= k < l1.len() implies l1[k] == l2[k] by {
                assert(s1[pre.len() + k] == l1[k]);
                assert(s2[pre.len() + k] == l2[k]);
            }
        }
        lemma_le_bytes_usize_injective(c1.args.len(), c2.args.len());
    }
}

/// The order-independent accumulator state: wrapping sums and xors of the
/// low and high halves of the digests, and their number.
pub struct AccState {
    pub sum_lo: u128,
    pub sum_hi: u128,
    pub xor_lo: u128,
    pub xor_hi: u128,
    pub cnt: nat,
}

/// The low half of a digest, read as a little-endian integer.
pub open spec fn digest_lo(h: Seq<u8>) -> u128 {
    le_value(h.subrange(0, 16)) as u128
}

/// The high half of a digest, read as a little-endian integer.
pub open spec fn digest_hi(h: Seq<u8>) -> u128 {
    le_value(h.subrange(16, 32)) as u128
}

/// One accumulation step.
pub open spec fn acc_step(a: AccState, h: Seq<u8>) -> AccState {
    AccState {
        sum_lo: u128_specs::wrapping_add(a.sum_lo, digest_lo(h)),
        sum_hi: u128_specs::wrapping_add(a.sum_hi, digest_hi(h)),
        xor_lo: a.xor_lo ^ digest_lo(h),
        xor_hi: a.xor_hi ^ digest_hi(h),
        cnt: a.cnt + 1,
    }
}

/// The accumulator after all digests.
pub open spec fn acc_fold(hs: Seq<Seq<u8>>) -> AccState
    decreases hs.len(),
{
    if hs.len() == 0 {
        AccState { sum_lo: 0, sum_hi: 0, xor_lo: 0, xor_hi: 0, cnt: 0 }
    } else {
        acc_step(acc_fold(hs.drop_last()), hs.last())
    }
}

/// The bytes fed to the final digest.
pub open spec fn acc_bytes(a: AccState) -> Seq<u8> {
    le_bytes_u128(a.sum_lo) + le_bytes_u128(a.sum_hi) + le_bytes_u128(a.xor_lo)
        + le_bytes_u128(a.xor_hi) + le_bytes_usize(a.cnt as usize)
}

/// The digest of a path.
pub open spec fn path_digest(p: Seq<char>) -> Seq<u8> {
    blake3_digest(utf8(p))
}

/// The output paths of the builds `deps`, build after build.
pub open spec fn dep_out_paths(g: BuildGraph, deps: Seq<usize>) -> Seq<Seq<char>>
    decreases deps.len(),
{
    if deps.len() == 0 {
        Seq::empty()
    } else {
        dep_out_paths(g, deps.drop_last()) + paths_of(
            g.spec_nodes()[deps.last() as int].outs@,
            g.spec_files(),
        )
    }
}

/// The input set of a build: its fixed inputs, then the outputs of the
/// builds it depends on.
pub open spec fn input_set_paths(g: BuildGraph, b: usize) -> Seq<Seq<char>> {
    paths_of(g.spec_nodes()[b as int].ins@, g.spec_files()) + dep_out_paths(
        g,
        g.spec_dependencies(b),
    )
}

/// The digest of a build's input set.
pub open spec fn input_set_digest(g: BuildGraph, b: usize) -> Seq<u8> {
    blake3_digest(acc_bytes(acc_fold(input_set_paths(g, b).map_values(|p: Seq<char>| path_digest(p)))))
}

pub(crate) fn append_bytes(out: &mut Vec<u8>, b: &[u8])
    ensures
        final(out)@ == old(out)@ + b@,
{
    let mut i: usize = 0;
    while i < b.len()
        invariant
            i <= b@.len(),
            out@ == old(out)@ + b@.subrange(0, i as int),
        decreases b@.len() - i,
    {
        out.push(b[i]);
        i = i + 1;
        assert(b@.subrange(0, i as int) == b@.subrange(0, i - 1) + seq![b@[i - 1]]);
    }
    assert(b@.subrange(0, b@.len() as int) == b@);
}

pub(crate) fn append_str(out: &mut Vec<u8>, s: &str)
    ensures
        final(out)@ == old(out)@ + utf8(s@),
{
    append_bytes(out, s.as_bytes());
}

fn append_nul_joined(out: &mut Vec<u8>, parts: &Vec<String>)
    ensures
        final(out)@ == old(out)@ + nul_joined(string_views(parts@)),
{
    let mut i: usize = 0;
    while i < parts.len()
        invariant
            i <= parts@.len(),
            out@ == old(out)@ + nul_joined(string_views(parts@).take(i as int)),
        decreases parts@.len() - i,
    {
        let ghost before = out@;
        append_str(out, parts[i].as_str());
        out.push(0u8);
        proof {
            let v = string_views(parts@);
            assert(v.take(i + 1).drop_last() == v.take(i as int));
            assert(v.take(i + 1).last() == parts@[i as int]@);
        }
        i = i + 1;
    }
    assert(string_views(parts@).take(parts@.len() as int) == string_views(parts@));
}

fn u128_to_be_bytes(v: u128) -> (r: [u8; 16])
    ensures
        r@ == be_bytes_u128(v),
{
    let mut r = [0u8; 16];
    let mut i: usize = 0;
    while i < 16
        invariant
            i <= 16,
            r@.len() == 16,
            forall|j: int| 0 <= j < i ==> r@[j] == (v >> ((8 * (15 - j)) as u32)) as u8,
        decreases 16 - i,
    {
        let sh: u32 = (8 * (15 - i)) as u32;
        r[i] = (v >> sh) as u8;
        i = i + 1;
    }
    assert(r@ =~= be_bytes_u128(v));
    r
}

/// Generate a identity hash for this build.
///
/// The hash is independent of the actual layout of the graph or the build,
/// e.g. the [`FileId`]s used to represent files. However, it is still
/// sensitive to the order of output files. The number of a command's
/// arguments is hashed before them, so that a command and its outputs are
/// told apart from the same words split differently between the two.
pub fn hash_build(node: &BuildNode, graph: &BuildGraph) -> (h: BuildHash)
    requires
        forall|k: int| 0 <= k < node.outs@.len() ==> (#[trigger] node.outs@[k]).0 < graph.spec_files().len(),
    ensures
        h.0@ == be_bytes_u128(xxh3_128(build_hash_stream(*node, graph.spec_files()))),
{
    let mut s: Vec<u8> = Vec::new();
    match &node.command {
        BuildMethod::SubCommand(c) => {
            append_str(&mut s, "subcmd\0");
            append_str(&mut s, c.executable.as_str());
            s.push(0u8);
            append_usize_le(&mut s, c.args.len());
            append_nul_joined(&mut s, &c.args);
        },
        BuildMethod::Callback(name) => {
            append_str(&mut s, "callback\0");
            append_str(&mut s, name.as_str());
        },
        BuildMethod::Phony => {
            append_str(&mut s, "phony\0");
        },
    }
    assert(s@ == command_stream(node.command));
    append_str(&mut s, "out\0");
    let ghost head = s@;
    let ghost outs = paths_of(node.outs@, graph.spec_files());
    let mut i: usize = 0;
    while i < node.outs.len()
        invariant
            i <= node.outs@.len(),
            outs == paths_of(node.outs@, graph.spec_files()),
            forall|k: int| 0 <= k < node.outs@.len() ==> (#[trigger] node.outs@[k]).0 < graph.spec_files().len(),
            s@ == head + nul_joined(outs.take(i as int)),
        decreases node.outs@.len() - i,
    {
        let p = graph.lookup_path(node.outs[i]).unwrap();
        append_str(&mut s, p.as_str());
        s.push(0u8);
        proof {
            assert(outs.take(i + 1).drop_last() == outs.take(i as int));
            assert(outs.take(i + 1).last() == outs[i as int]);
        }
        i = i + 1;
    }
    assert(outs.take(outs.len() as int) == outs);
    let h = xxh3_128_oneshot(s.as_slice());
    BuildHash(u128_to_be_bytes(h))
}


fn u128_to_le_bytes(v: u128) -> (r: [u8; 16])
    ensures
        r@ == le_bytes_u128(v),
{
    let mut r = [0u8; 16];
    let mut i: usize = 0;
    while i < 16
        invariant
            i <= 16,
            r@.len() == 16,
            forall|j: int| 0 <= j < i ==> r@[j] == (v >> ((8 * j) as u32)) as u8,
        decreases 16 - i,
    {
        let sh: u32 = (8 * i) as u32;
        r[i] = (v >> sh) as u8;
        i = i + 1;
    }
    assert(r@ =~= le_bytes_u128(v));
    r
}

fn append_usize_le(out: &mut Vec<u8>, v: usize)
    ensures
        final(out)@ == old(out)@ + le_bytes_usize(v),
{
    let n: usize = (usize::BITS / 8) as usize;
    let mut i: usize = 0;
    while i < n
        invariant
            n == usize::BITS / 8,
            i <= n,
            out@ == old(out)@ + le_bytes_usize(v).take(i as int),
        decreases n - i,
    {
        let sh: u32 = (8 * i) as u32;
        out.push((v >> sh) as u8);
        proof {
            assert(le_bytes_usize(v).take(i + 1) =~= le_bytes_usize(v).take(i as int).push(
                (v >> ((8 * i) as u32)) as u8,
            ));
        }
        i = i + 1;
    }
    assert(le_bytes_usize(v).take(n as int) =~= le_bytes_usize(v));
}

/// The accumulator for collecting an order-independent hash of input files.
struct Acc {
    sum_lo: u128,
    sum_hi: u128,
    xor_lo: u128,
    xor_hi: u128,
    cnt: usize,
}

impl Acc {
    spec fn state(&self) -> AccState {
        AccState {
            sum_lo: self.sum_lo,
            sum_hi: self.sum_hi,
            xor_lo: self.xor_lo,
            xor_hi: self.xor_hi,
            cnt: self.cnt as nat,
        }
    }

    fn new() -> (a: Acc)
        ensures
            a.state() == acc_fold(Seq::empty()),
    {
        Acc { sum_lo: 0, sum_hi: 0, xor_lo: 0, xor_hi: 0, cnt: 0 }
    }

    fn accumulate(&mut self, h: &[u8; 32])
        requires
            old(self).cnt < usize::MAX,
        ensures
            final(self).state() == acc_step(old(self).state(), h@),
    {
        let lo = read_le_u128(h, 0);
        let hi = read_le_u128(h, 16);
        self.sum_lo = self.sum_lo.wrapping_add(lo);
        self.sum_hi = self.sum_hi.wrapping_add(hi);
        self.xor_lo = self.xor_lo ^ lo;
        self.xor_hi = self.xor_hi ^ hi;
        self.cnt = self.cnt + 1;
    }

    fn finalize(&self) -> (r: [u8; 32])
        ensures
            r@ == blake3_digest(acc_bytes(self.state())),
    {
        let mut b: Vec<u8> = Vec::new();
        let x = u128_to_le_bytes(self.sum_lo);
        append_bytes(&mut b, x.as_slice());
        let x = u128_to_le_bytes(self.sum_hi);
        append_bytes(&mut b, x.as_slice());
        let x = u128_to_le_bytes(self.xor_lo);
        append_bytes(&mut b, x.as_slice());
        let x = u128_to_le_bytes(self.xor_hi);
        append_bytes(&mut b, x.as_slice());
        append_usize_le(&mut b, self.cnt);
        blake3_hash(b.as_slice())
    }
}

proof fn lemma_map_push<A, B>(s: Seq<A>, x: A, f: spec_fn(A) -> B)
    ensures
        s.push(x).map_values(f) == s.map_values(f).push(f(x)),
{
    assert(s.push(x).map_values(f) =~= s.map_values(f).push(f(x)));
}

/// Hash the input set of a build node.
///
/// This hash is order-independent, to mitigate the difference layout of the
/// graph between runs.
pub fn hash_input_set(build_id: BuildId, graph: &BuildGraph) -> (r: [u8; 32])
    requires
        build_id.0 < graph.spec_nodes().len(),
        graph.ids_in_bounds(),
        input_set_paths(*graph, build_id.0).len() < usize::MAX,
    ensures
        r@ == input_set_digest(*graph, build_id.0),
{
    let ghost all = input_set_paths(*graph, build_id.0);
    let ghost f = |p: Seq<char>| path_digest(p);
    let mut acc = Acc::new();
    let ghost mut done: Seq<Seq<char>> = Seq::empty();
    let build = graph.lookup_build(build_id).unwrap();
    let ghost ins = paths_of(build.ins@, graph.spec_files());
    let mut i: usize = 0;
    while i < build.ins.len()
        invariant
            *build == graph.spec_nodes()[build_id.0 as int],
            build_id.0 < graph.spec_nodes().len(),
            graph.ids_in_bounds(),
            ins == paths_of(build.ins@, graph.spec_files()),
            all == input_set_paths(*graph, build_id.0),
            all.len() < usize::MAX,
            f == (|p: Seq<char>| path_digest(p)),
            i <= build.ins@.len(),
            done == ins.take(i as int),
            acc.state() == acc_fold(done.map_values(f)),
            acc.cnt == done.len(),
        decreases build.ins@.len() - i,
    {
        let p = graph.lookup_path(build.ins[i]).unwrap();
        let h = blake3_hash(p.as_str().as_bytes());
        proof {
            assert(done.len() <= all.len());
        }
        acc.accumulate(&h);
        proof {
            assert(p@ == ins[i as int]);
            assert(h@ == f(ins[i as int]));
            lemma_map_push(done, ins[i as int], f);
            assert(done.push(ins[i as int]).map_values(f).drop_last() == done.map_values(f));
            done = done.push(ins[i as int]);
            assert(done == ins.take(i + 1));
        }
        i = i + 1;
    }
    proof {
        assert(ins.take(ins.len() as int) == ins);
    }
    let deps = graph.build_dependencies(build_id);
    let ghost dep_ids = graph.spec_dependencies(build_id.0);
    proof {
        assert(deps@.len() == dep_ids.len());
        assert forall|j: int| 0 <= j < deps@.len() implies #[trigger] deps@[j].0 == dep_ids[j] by {
            assert(deps@.map_values(|b: BuildId| b.0)[j] == deps@[j].0);
        }
    }
    let mut j: usize = 0;
    while j < deps.len()
        invariant
            build_id.0 < graph.spec_nodes().len(),
            graph.ids_in_bounds(),
            all == input_set_paths(*graph, build_id.0),
            all == ins + dep_out_paths(*graph, dep_ids),
            all.len() < usize::MAX,
            f == (|p: Seq<char>| path_digest(p)),
            dep_ids == graph.spec_dependencies(build_id.0),
            deps@.len() == dep_ids.len(),
            forall|k: int| 0 <= k < deps@.len() ==> #[trigger] deps@[k].0 == dep_ids[k],
            j <= deps@.len(),
            done == ins + dep_out_paths(*graph, dep_ids.take(j as int)),
            acc.state() == acc_fold(done.map_values(f)),
            acc.cnt == done.len(),
        decreases deps@.len() - j,
    {
        let d = deps[j];
        proof {
            lemma_dependency_in_bounds(*graph, build_id.0, j as int);
        }
        let dep = graph.lookup_build(d).unwrap();
        let ghost outs = paths_of(dep.outs@, graph.spec_files());
        let ghost base = done;
        proof {
            assert(dep_ids.take(j + 1).drop_last() =~= dep_ids.take(j as int));
            assert(dep_out_paths(*graph, dep_ids.take(j + 1)) == dep_out_paths(*graph, dep_ids.take(j as int)) + outs);
            lemma_dep_out_paths_prefix(*graph, dep_ids, j as int + 1);
        }
        let mut k: usize = 0;
        while k < dep.outs.len()
            invariant
                *dep == graph.spec_nodes()[d.0 as int],
                d.0 < graph.spec_nodes().len(),
                graph.ids_in_bounds(),
                outs == paths_of(dep.outs@, graph.spec_files()),
                all.len() < usize::MAX,
                base.len() + outs.len() <= all.len(),
                f == (|p: Seq<char>| path_digest(p)),
                k <= dep.outs@.len(),
                done == base + outs.take(k as int),
                acc.state() == acc_fold(done.map_values(f)),
                acc.cnt == done.len(),
            decreases dep.outs@.len() - k,
        {
            let p = graph.lookup_path(dep.outs[k]).unwrap();
            let h = blake3_hash(p.as_str().as_bytes());
            acc.accumulate(&h);
            proof {
                assert(p@ == outs[k as int]);
                assert(h@ == f(outs[k as int]));
                lemma_map_push(done, outs[k as int], f);
                assert(done.push(outs[k as int]).map_values(f).drop_last() == done.map_values(f));
                done = done.push(outs[k as int]);
                assert(done =~= base + outs.take(k + 1));
            }
            k = k + 1;
        }
        proof {
            assert(outs.take(outs.len() as int) == outs);
            assert(done =~= ins + dep_out_paths(*graph, dep_ids.take(j + 1)));
        }
        j = j + 1;
    }
    proof {
        assert(dep_ids.take(dep_ids.len() as int) == dep_ids);
        assert(done == all);
    }
    acc.finalize()
}

proof fn lemma_dep_out_paths_prefix(g: BuildGraph, deps: Seq<usize>, j: int)
    requires
        0 <= j <= deps.len(),
    ensures
        dep_out_paths(g, deps.take(j)).len() <= dep_out_paths(g, deps).len(),
    decreases deps.len(),
{
    if j < deps.len() {
        assert(deps.drop_last().take(j) =~= deps.take(j));
        lemma_dep_out_paths_prefix(g, deps.drop_last(), j);
    } else {
        assert(deps.take(j) =~= deps);
    }
}


proof fn lemma_wrapping_add_commutes(a: u128, x: u128, y: u128)
    ensures
        u128_specs::wrapping_add(u128_specs::wrapping_add(a, x), y) == u128_specs::wrapping_add(
            u128_specs::wrapping_add(a, y),
            x,
        ),
{
}

proof fn lemma_xor_commutes(a: u128, x: u128, y: u128)
    ensures
        (a ^ x) ^ y == (a ^ y) ^ x,
{
    assert((a ^ x) ^ y == (a ^ y) ^ x) by (bit_vector);
}

proof fn lemma_step_commutes(a: AccState, x: Seq<u8>, y: Seq<u8>)
    ensures
        acc_step(acc_step(a, x), y) == acc_step(acc_step(a, y), x),
{
    lemma_wrapping_add_commutes(a.sum_lo, digest_lo(x), digest_lo(y));
    lemma_wrapping_add_commutes(a.sum_hi, digest_hi(x), digest_hi(y));
    lemma_xor_commutes(a.xor_lo, digest_lo(x), digest_lo(y));
    lemma_xor_commutes(a.xor_hi, digest_hi(x), digest_hi(y));
}

proof fn lemma_fold_remove(s: Seq<Seq<u8>>, i: int)
    requires
        0 <= i < s.len(),
    ensures
        acc_fold(s) == acc_step(acc_fold(s.remove(i)), s[i]),
    decreases s.len(),
{
    if i == s.len() - 1 {
        assert(s.remove(i) =~= s.drop_last());
    } else {
        let d = s.drop_last();
        lemma_fold_remove(d, i);
        assert(d[i] == s[i]);
        assert(s.remove(i) =~= d.remove(i).push(s.last()));
        assert(s.remove(i).drop_last() =~= d.remove(i));
        lemma_step_commutes(acc_fold(d.remove(i)), s[i], s.last());
    }
}

/// The accumulator does not depend on the order of the digests: two lists
/// that hold the same digests, each as often, accumulate to the same state.
pub proof fn lemma_acc_fold_order_independent(s1: Seq<Seq<u8>>, s2: Seq<Seq<u8>>)
    requires
        s1.to_multiset() =~= s2.to_multiset(),
    ensures
        acc_fold(s1) == acc_fold(s2),
    decreases s1.len(),
{
    broadcast use vstd::seq_lib::group_to_multiset_ensures;

    assert(s1.to_multiset().len() == s1.len());
    assert(s2.to_multiset().len() == s2.len());
    if s1.len() == 0 {
        assert(s2.len() == 0);
        assert(s2 =~= s1);
    } else {
        let x = s1.last();
        assert(s1.to_multiset().count(x) > 0) by {
            assert(s1.contains(x)) by {
                assert(s1[s1.len() - 1] == x);
            }
        }
        assert(s2.to_multiset().count(x) > 0);
        assert(s2.contains(x));
        let i = choose|i: int| 0 <= i < s2.len() && s2[i] == x;
        assert(s1.drop_last().to_multiset() =~= s1.to_multiset().remove(x)) by {
            assert(s1 =~= s1.drop_last().push(x));
        }
        assert(s2.remove(i).to_multiset() =~= s2.to_multiset().remove(x));
        lemma_acc_fold_order_independent(s1.drop_last(), s2.remove(i));
        lemma_fold_remove(s2, i);
    }
}

proof fn lemma_map_same_multiset<A, B>(s1: Seq<A>, s2: Seq<A>, f: spec_fn(A) -> B)
    requires
        s1.to_multiset() =~= s2.to_multiset(),
    ensures
        s1.map_values(f).to_multiset() =~= s2.map_values(f).to_multiset(),
    decreases s1.len(),
{
    broadcast use vstd::seq_lib::group_to_multiset_ensures;

    assert(s1.to_multiset().len() == s1.len());
    assert(s2.to_multiset().len() == s2.len());
    if s1.len() == 0 {
        assert(s2.len() == 0);
        assert(s1.map_values(f) =~= s2.map_values(f));
    } else {
        let x = s1.last();
        assert(s1.contains(x)) by {
            assert(s1[s1.len() - 1] == x);
        }
        assert(s1.to_multiset().count(x) > 0);
        assert(s2.to_multiset().count(x) > 0);
        assert(s2.contains(x));
        let i = choose|i: int| 0 <= i < s2.len() && s2[i] == x;
        assert(s1 =~= s1.drop_last().push(x));
        assert(s1.drop_last().to_multiset() =~= s1.to_multiset().remove(x));
        assert(s2.remove(i).to_multiset() =~= s2.to_multiset().remove(x));
        lemma_map_same_multiset(s1.drop_last(), s2.remove(i), f);
        assert(s1.map_values(f) =~= s1.drop_last().map_values(f).push(f(x)));
        assert(s2.remove(i).map_values(f) =~= s2.map_values(f).remove(i));
        assert(s2.map_values(f)[i] == f(x));
        assert(s2.map_values(f).remove(i).to_multiset() =~= s2.map_values(f).to_multiset().remove(f(x)));
        assert(s2.map_values(f).to_multiset().count(f(x)) > 0) by {
            assert(s2.map_values(f).contains(f(x)));
        }
    }
}

/// The input-set digest of a build depends only on which paths its input
/// set holds, each counted as often as it occurs, not on their order.
pub proof fn lemma_input_set_digest_order_independent(g1: BuildGraph, b1: usize, g2: BuildGraph, b2: usize)
    requires
        input_set_paths(g1, b1).to_multiset() =~= input_set_paths(g2, b2).to_multiset(),
    ensures
        input_set_digest(g1, b1) == input_set_digest(g2, b2),
{
    let f = |p: Seq<char>| path_digest(p);
    lemma_map_same_multiset(input_set_paths(g1, b1), input_set_paths(g2, b2), f);
    lemma_acc_fold_order_independent(
        input_set_paths(g1, b1).map_values(f),
        input_set_paths(g2, b2).map_values(f),
    );
}


/// The bytes a build is identified by do not depend on how the graph lays
/// out its files: two builds with the same method and the same output
/// paths, in the same order, are hashed alike, whatever their file ids.
pub proof fn lemma_build_hash_layout_independent(
    n1: BuildNode,
    files1: Seq<Seq<char>>,
    n2: BuildNode,
    files2: Seq<Seq<char>>,
)
    requires
        n1.command == n2.command,
        paths_of(n1.outs@, files1) == paths_of(n2.outs@, files2),
    ensures
        build_hash_stream(n1, files1) == build_hash_stream(n2, files2),
{
}

} // verus!
