//! Different builds are hashed from different bytes: the byte stream that
//! identifies a build determines its method and its outputs, as long as no
//! word holds a zero character.

use crate::graph::hash::{
    build_hash_stream, command_stream, le_bytes_usize, lemma_le_bytes_usize_injective, nul_joined, paths_of,
    string_views, utf8,
};
use crate::graph::{BuildMethod, BuildNode};
use vstd::prelude::*;
use vstd::utf8::{
    decode_utf8, encode_scalar, encode_utf8, encode_utf8_decode_utf8, has_width_1_encoding, is_ascii_chars,
    is_ascii_chars_encode_utf8, is_scalar, char_is_scalar, char_u32_cast,
};

verus! {

/// The word holds no zero character.
pub open spec fn nul_free(s: Seq<char>) -> bool {
    !s.contains('\0')
}

/// No word of the list holds a zero character.
pub open spec fn all_nul_free(ps: Seq<Seq<char>>) -> bool {
    forall|i: int| 0 <= i < ps.len() ==> nul_free(#[trigger] ps[i])
}

/// No word that identifies the build holds a zero character: its program,
/// arguments or callback name, and its output paths.
pub open spec fn words_nul_free(node: BuildNode, files: Seq<Seq<char>>) -> bool {
    &&& match node.command {
        BuildMethod::SubCommand(c) => nul_free(c.executable@) && all_nul_free(string_views(c.args@)),
        BuildMethod::Callback(name) => nul_free(name@),
        BuildMethod::Phony => true,
    }
    &&& all_nul_free(paths_of(node.outs@, files))
}

/// The two builds have the same method, with the same words, and the same
/// output paths in the same order.
pub open spec fn same_identity(n1: BuildNode, f1: Seq<Seq<char>>, n2: BuildNode, f2: Seq<Seq<char>>) -> bool {
    &&& match (n1.command, n2.command) {
        (BuildMethod::SubCommand(a), BuildMethod::SubCommand(b)) => a.executable@ == b.executable@ && string_views(
            a.args@,
        ) == string_views(b.args@),
        (BuildMethod::Callback(a), BuildMethod::Callback(b)) => a@ == b@,
        (BuildMethod::Phony, BuildMethod::Phony) => true,
        _ => false,
    }
    &&& paths_of(n1.outs@, f1) == paths_of(n2.outs@, f2)
}

/// A nonzero scalar has no zero byte in its encoding.
proof fn lemma_scalar_no_zero(v: u32)
    requires
        is_scalar(v),
        v != 0,
    ensures
        forall|i: int| 0 <= i < encode_scalar(v).len() ==> encode_scalar(v)[i] != 0,
{
    if has_width_1_encoding(v) {
        assert(((v & 0x7F) as u8) != 0) by (bit_vector)
            requires
                0 < v <= 0x7F,
        ;
    } else {
        assert((0xC0u8 | ((v >> 6u32) & 0x1F) as u8) != 0) by (bit_vector);
        assert((0xE0u8 | ((v >> 12u32) & 0x0F) as u8) != 0) by (bit_vector);
        assert((0xF0u8 | ((v >> 18u32) & 0x7) as u8) != 0) by (bit_vector);
        assert((0x80u8 | (v & 0x3F) as u8) != 0) by (bit_vector);
        assert((0x80u8 | ((v >> 6u32) & 0x3F) as u8) != 0) by (bit_vector);
        assert((0x80u8 | ((v >> 12u32) & 0x3F) as u8) != 0) by (bit_vector);
    }
}

/// A word without a zero character has no zero byte in its encoding.
proof fn lemma_utf8_no_zero(s: Seq<char>)
    requires
        nul_free(s),
    ensures
        forall|i: int| 0 <= i < utf8(s).len() ==> utf8(s)[i] != 0,
    decreases s.len(),
{
    if s.len() > 0 {
        let c = s[0];
        assert(s.contains(c));
        assert(c != '\0');
        char_is_scalar(c);
        if (c as u32) == 0 {
            char_u32_cast(c, c as u32);
            char_u32_cast('\0', '\0' as u32);
            assert(false);
        }
        lemma_scalar_no_zero(c as u32);
        let rest = s.drop_first();
        assert(nul_free(rest)) by {
            if rest.contains('\0') {
                let j = choose|j: int| 0 <= j < rest.len() && rest[j] == '\0';
                assert(s[j + 1] == '\0');
            }
        }
        lemma_utf8_no_zero(rest);
        let e = encode_scalar(c as u32);
        assert(utf8(s) == e + utf8(rest));
        assert forall|i: int| 0 <= i < utf8(s).len() implies utf8(s)[i] != 0 by {
            if i < e.len() {
                assert(utf8(s)[i] == e[i]);
            } else {
                assert(utf8(s)[i] == utf8(rest)[i - e.len()]);
            }
        }
    }
}

/// Encoding words is one to one.
proof fn lemma_utf8_injective(a: Seq<char>, b: Seq<char>)
    requires
        utf8(a) == utf8(b),
    ensures
        a == b,
{
    encode_utf8_decode_utf8(a);
    encode_utf8_decode_utf8(b);
}

/// Two streams that each begin with bytes other than zero followed by a
/// zero byte begin with the same bytes, and go on alike.
proof fn lemma_split_at_zero(a: Seq<u8>, b: Seq<u8>, r1: Seq<u8>, r2: Seq<u8>)
    requires
        forall|i: int| 0 <= i < a.len() ==> a[i] != 0,
        forall|i: int| 0 <= i < b.len() ==> b[i] != 0,
        a + seq![0u8] + r1 == b + seq![0u8] + r2,
    ensures
        a == b,
        r1 == r2,
{
    let x = a + seq![0u8] + r1;
    let y = b + seq![0u8] + r2;
    if a.len() < b.len() {
        assert(x[a.len() as int] == 0);
        assert(y[a.len() as int] == b[a.len() as int]);
    } else if b.len() < a.len() {
        assert(y[b.len() as int] == 0);
        assert(x[b.len() as int] == a[b.len() as int]);
    } else {
        assert(a =~= x.subrange(0, a.len() as int));
        assert(b =~= y.subrange(0, b.len() as int));
        assert(r1 =~= x.subrange(a.len() as int + 1, x.len() as int));
        assert(r2 =~= y.subrange(b.len() as int + 1, y.len() as int));
    }
}

/// Two streams that begin with the same bytes go on alike.
proof fn lemma_strip_prefix(p: Seq<u8>, x: Seq<u8>, y: Seq<u8>)
    requires
        p + x == p + y,
    ensures
        x == y,
{
    assert(x =~= (p + x).subrange(p.len() as int, (p + x).len() as int));
    assert(y =~= (p + y).subrange(p.len() as int, (p + y).len() as int));
}

/// The words of a list, each followed by a zero byte, read from the front.
proof fn lemma_nul_joined_front(parts: Seq<Seq<char>>)
    requires
        parts.len() > 0,
    ensures
        nul_joined(parts) == utf8(parts[0]) + seq![0u8] + nul_joined(parts.drop_first()),
    decreases parts.len(),
{
    if parts.len() == 1 {
        assert(parts.drop_last() =~= Seq::<Seq<char>>::empty());
        assert(parts.drop_first() =~= Seq::<Seq<char>>::empty());
        assert(nul_joined(parts) =~= utf8(parts[0]) + seq![0u8] + nul_joined(parts.drop_first()));
    } else {
        let d = parts.drop_last();
        lemma_nul_joined_front(d);
        assert(d.drop_first() =~= parts.drop_first().drop_last());
        assert(parts.drop_first().last() == parts.last());
        assert(nul_joined(parts) =~= utf8(parts[0]) + seq![0u8] + nul_joined(parts.drop_first()));
    }
}

/// A list of words without zero characters is read back from its joined
/// bytes, given how many words there are; and what follows them is too.
proof fn lemma_nul_joined_prefix(p1: Seq<Seq<char>>, p2: Seq<Seq<char>>, r1: Seq<u8>, r2: Seq<u8>)
    requires
        p1.len() == p2.len(),
        all_nul_free(p1),
        all_nul_free(p2),
        nul_joined(p1) + r1 == nul_joined(p2) + r2,
    ensures
        p1 == p2,
        r1 == r2,
    decreases p1.len(),
{
    if p1.len() == 0 {
        assert(nul_joined(p1) + r1 =~= r1);
        assert(nul_joined(p2) + r2 =~= r2);
        assert(p1 =~= p2);
    } else {
        lemma_nul_joined_front(p1);
        lemma_nul_joined_front(p2);
        let t1 = p1.drop_first();
        let t2 = p2.drop_first();
        assert(nul_free(p1[0]));
        assert(nul_free(p2[0]));
        lemma_utf8_no_zero(p1[0]);
        lemma_utf8_no_zero(p2[0]);
        assert(nul_joined(p1) + r1 =~= utf8(p1[0]) + seq![0u8] + (nul_joined(t1) + r1));
        assert(nul_joined(p2) + r2 =~= utf8(p2[0]) + seq![0u8] + (nul_joined(t2) + r2));
        lemma_split_at_zero(utf8(p1[0]), utf8(p2[0]), nul_joined(t1) + r1, nul_joined(t2) + r2);
        lemma_utf8_injective(p1[0], p2[0]);
        assert forall|i: int| 0 <= i < t1.len() implies nul_free(#[trigger] t1[i]) by {
            assert(t1[i] == p1[i + 1]);
        }
        assert forall|i: int| 0 <= i < t2.len() implies nul_free(#[trigger] t2[i]) by {
            assert(t2[i] == p2[i + 1]);
        }
        lemma_nul_joined_prefix(t1, t2, r1, r2);
        assert forall|i: int| 0 <= i < p1.len() implies p1[i] == p2[i] by {
            if i > 0 {
                assert(p1[i] == t1[i - 1]);
                assert(p2[i] == t2[i - 1]);
            }
        }
        assert(p1 =~= p2);
    }
}

/// A list of words without zero characters is read back from its joined
/// bytes.
proof fn lemma_nul_joined_injective(p1: Seq<Seq<char>>, p2: Seq<Seq<char>>)
    requires
        all_nul_free(p1),
        all_nul_free(p2),
        nul_joined(p1) == nul_joined(p2),
    ensures
        p1 == p2,
    decreases p1.len() + p2.len(),
{
    if p1.len() == 0 || p2.len() == 0 {
        if p1.len() > 0 {
            lemma_nul_joined_front(p1);
            assert(nul_joined(p1).len() > 0);
        }
        if p2.len() > 0 {
            lemma_nul_joined_front(p2);
            assert(nul_joined(p2).len() > 0);
        }
        assert(p1 =~= p2);
    } else {
        lemma_nul_joined_front(p1);
        lemma_nul_joined_front(p2);
        let t1 = p1.drop_first();
        let t2 = p2.drop_first();
        assert(nul_free(p1[0]));
        assert(nul_free(p2[0]));
        lemma_utf8_no_zero(p1[0]);
        lemma_utf8_no_zero(p2[0]);
        lemma_split_at_zero(utf8(p1[0]), utf8(p2[0]), nul_joined(t1), nul_joined(t2));
        lemma_utf8_injective(p1[0], p2[0]);
        assert forall|i: int| 0 <= i < t1.len() implies nul_free(#[trigger] t1[i]) by {
            assert(t1[i] == p1[i + 1]);
        }
        assert forall|i: int| 0 <= i < t2.len() implies nul_free(#[trigger] t2[i]) by {
            assert(t2[i] == p2[i + 1]);
        }
        lemma_nul_joined_injective(t1, t2);
        assert forall|i: int| 0 <= i < p1.len() implies p1[i] == p2[i] by {
            if i > 0 {
                assert(p1[i] == t1[i - 1]);
                assert(p2[i] == t2[i - 1]);
            }
        }
        assert(p1 =~= p2);
    }
}

/// The encoding of an ASCII literal, byte by byte.
proof fn lemma_ascii(s: Seq<char>)
    requires
        is_ascii_chars(s),
    ensures
        utf8(s).len() == s.len(),
        forall|i: int| 0 <= i < s.len() ==> #[trigger] utf8(s)[i] == s[i] as u8,
{
    is_ascii_chars_encode_utf8(s);
}

/// The bytes that name a build method.
pub open spec fn method_tag(m: BuildMethod) -> Seq<u8> {
    match m {
        BuildMethod::SubCommand(_) => utf8("subcmd\0"@),
        BuildMethod::Callback(_) => utf8("callback\0"@),
        BuildMethod::Phony => utf8("phony\0"@),
    }
}

/// The bytes of a build method after its tag.
pub open spec fn method_rest(m: BuildMethod) -> Seq<u8> {
    match m {
        BuildMethod::SubCommand(c) => utf8(c.executable@) + seq![0u8] + le_bytes_usize(c.args.len()) + nul_joined(
            string_views(c.args@),
        ),
        BuildMethod::Callback(name) => utf8(name@),
        BuildMethod::Phony => Seq::empty(),
    }
}

/// The tags of the methods begin with different bytes, and the outputs
/// follow the bytes of "out" and a zero byte.
proof fn lemma_tags()
    ensures
        utf8("subcmd\0"@).len() > 0 && utf8("subcmd\0"@)[0] == 115u8,
        utf8("callback\0"@).len() > 0 && utf8("callback\0"@)[0] == 99u8,
        utf8("phony\0"@).len() > 0 && utf8("phony\0"@)[0] == 112u8,
        utf8("out\0"@) == seq![111u8, 117u8, 116u8, 0u8],
{
    reveal_strlit("subcmd\0");
    reveal_strlit("callback\0");
    reveal_strlit("phony\0");
    reveal_strlit("out\0");
    assert(is_ascii_chars("subcmd\0"@));
    assert(is_ascii_chars("callback\0"@));
    assert(is_ascii_chars("phony\0"@));
    assert(is_ascii_chars("out\0"@));
    lemma_ascii("subcmd\0"@);
    lemma_ascii("callback\0"@);
    lemma_ascii("phony\0"@);
    lemma_ascii("out\0"@);
    assert(utf8("out\0"@) =~= seq![111u8, 117u8, 116u8, 0u8]);
}

/// The bytes of a method are its tag and then the rest.
proof fn lemma_command_stream_split(m: BuildMethod)
    ensures
        command_stream(m) == method_tag(m) + method_rest(m),
{
    match m {
        BuildMethod::SubCommand(c) => {
            assert(command_stream(m) =~= method_tag(m) + method_rest(m));
        },
        BuildMethod::Callback(name) => {},
        BuildMethod::Phony => {
            assert(command_stream(m) =~= method_tag(m) + method_rest(m));
        },
    }
}

/// Different builds are hashed from different bytes: two builds whose
/// words hold no zero character and whose identifying byte streams are the
/// same have the same method, with the same words, and the same outputs in
/// the same order. Only a collision of the hash itself can give two
/// different such builds the same hash.
pub proof fn lemma_build_hash_stream_injective(n1: BuildNode, f1: Seq<Seq<char>>, n2: BuildNode, f2: Seq<Seq<char>>)
    requires
        words_nul_free(n1, f1),
        words_nul_free(n2, f2),
        build_hash_stream(n1, f1) == build_hash_stream(n2, f2),
    ensures
        same_identity(n1, f1, n2, f2),
{
    lemma_tags();
    let out = seq![111u8, 117u8, 116u8, 0u8];
    let o1 = paths_of(n1.outs@, f1);
    let o2 = paths_of(n2.outs@, f2);
    let (c1, c2) = (n1.command, n2.command);
    lemma_command_stream_split(c1);
    lemma_command_stream_split(c2);
    let k1 = method_tag(c1);
    let k2 = method_tag(c2);
    let x1 = method_rest(c1) + out + nul_joined(o1);
    let x2 = method_rest(c2) + out + nul_joined(o2);
    assert(build_hash_stream(n1, f1) =~= k1 + x1);
    assert(build_hash_stream(n2, f2) =~= k2 + x2);
    assert((k1 + x1)[0] == k1[0]);
    assert((k2 + x2)[0] == k2[0]);
    lemma_same_tag_tail(c1, c2, o1, o2, x1, x2);
}

/// Builds whose bytes begin with the same tag byte have the same kind of
/// method, and then the same bytes after the tag.
proof fn lemma_same_tag_tail(
    c1: BuildMethod,
    c2: BuildMethod,
    o1: Seq<Seq<char>>,
    o2: Seq<Seq<char>>,
    x1: Seq<u8>,
    x2: Seq<u8>,
)
    requires
        utf8("subcmd\0"@).len() > 0 && utf8("subcmd\0"@)[0] == 115u8,
        utf8("callback\0"@).len() > 0 && utf8("callback\0"@)[0] == 99u8,
        utf8("phony\0"@).len() > 0 && utf8("phony\0"@)[0] == 112u8,
        method_tag(c1)[0] == method_tag(c2)[0],
        method_tag(c1) + x1 == method_tag(c2) + x2,
        x1 == method_rest(c1) + seq![111u8, 117u8, 116u8, 0u8] + nul_joined(o1),
        x2 == method_rest(c2) + seq![111u8, 117u8, 116u8, 0u8] + nul_joined(o2),
        match c1 {
            BuildMethod::SubCommand(c) => nul_free(c.executable@) && all_nul_free(string_views(c.args@)),
            BuildMethod::Callback(name) => nul_free(name@),
            BuildMethod::Phony => true,
        },
        match c2 {
            BuildMethod::SubCommand(c) => nul_free(c.executable@) && all_nul_free(string_views(c.args@)),
            BuildMethod::Callback(name) => nul_free(name@),
            BuildMethod::Phony => true,
        },
        all_nul_free(o1),
        all_nul_free(o2),
    ensures
        match (c1, c2) {
            (BuildMethod::SubCommand(a), BuildMethod::SubCommand(b)) => a.executable@ == b.executable@
                && string_views(a.args@) == string_views(b.args@),
            (BuildMethod::Callback(a), BuildMethod::Callback(b)) => a@ == b@,
            (BuildMethod::Phony, BuildMethod::Phony) => true,
            _ => false,
        },
        o1 == o2,
{
    let out = seq![111u8, 117u8, 116u8, 0u8];
    let k = method_tag(c1);
    assert(method_tag(c1) == method_tag(c2));
    lemma_strip_prefix(k, x1, x2);
    match (c1, c2) {
        (BuildMethod::SubCommand(a), BuildMethod::SubCommand(b)) => {
            assert(x1 =~= utf8(a.executable@) + seq![0u8] + (le_bytes_usize(a.args.len()) + (nul_joined(
                string_views(a.args@),
            ) + (out + nul_joined(o1)))));
            assert(x2 =~= utf8(b.executable@) + seq![0u8] + (le_bytes_usize(b.args.len()) + (nul_joined(
                string_views(b.args@),
            ) + (out + nul_joined(o2)))));
            lemma_subcommand_tail(a, b, o1, o2, out);
        },
        (BuildMethod::Callback(a), BuildMethod::Callback(b)) => {
            assert(x1 =~= utf8(a@) + seq![111u8, 117u8, 116u8] + seq![0u8] + nul_joined(o1));
            assert(x2 =~= utf8(b@) + seq![111u8, 117u8, 116u8] + seq![0u8] + nul_joined(o2));
            lemma_callback_tail(a@, b@, o1, o2);
        },
        (BuildMethod::Phony, BuildMethod::Phony) => {
            assert(x1 =~= out + nul_joined(o1));
            assert(x2 =~= out + nul_joined(o2));
            lemma_strip_prefix(out, nul_joined(o1), nul_joined(o2));
            lemma_nul_joined_injective(o1, o2);
        },
        _ => {},
    }
}

/// After the tag of a command, its program, its arguments and its outputs
/// are read back from the bytes.
proof fn lemma_subcommand_tail(
    a: crate::graph::BuildCommand,
    b: crate::graph::BuildCommand,
    o1: Seq<Seq<char>>,
    o2: Seq<Seq<char>>,
    out: Seq<u8>,
)
    requires
        nul_free(a.executable@),
        nul_free(b.executable@),
        all_nul_free(string_views(a.args@)),
        all_nul_free(string_views(b.args@)),
        all_nul_free(o1),
        all_nul_free(o2),
        utf8(a.executable@) + seq![0u8] + (le_bytes_usize(a.args.len()) + (nul_joined(string_views(a.args@)) + (out
            + nul_joined(o1)))) == utf8(b.executable@) + seq![0u8] + (le_bytes_usize(b.args.len()) + (nul_joined(
            string_views(b.args@),
        ) + (out + nul_joined(o2)))),
    ensures
        a.executable@ == b.executable@,
        string_views(a.args@) == string_views(b.args@),
        o1 == o2,
{
    let ra = le_bytes_usize(a.args.len()) + (nul_joined(string_views(a.args@)) + (out + nul_joined(o1)));
    let rb = le_bytes_usize(b.args.len()) + (nul_joined(string_views(b.args@)) + (out + nul_joined(o2)));
    lemma_utf8_no_zero(a.executable@);
    lemma_utf8_no_zero(b.executable@);
    lemma_split_at_zero(utf8(a.executable@), utf8(b.executable@), ra, rb);
    lemma_utf8_injective(a.executable@, b.executable@);
    let la = le_bytes_usize(a.args.len());
    let lb = le_bytes_usize(b.args.len());
    assert(la =~= ra.subrange(0, la.len() as int));
    assert(lb =~= rb.subrange(0, lb.len() as int));
    lemma_le_bytes_usize_injective(a.args.len(), b.args.len());
    lemma_strip_prefix(
        la,
        nul_joined(string_views(a.args@)) + (out + nul_joined(o1)),
        nul_joined(string_views(b.args@)) + (out + nul_joined(o2)),
    );
    lemma_nul_joined_prefix(string_views(a.args@), string_views(b.args@), out + nul_joined(o1), out + nul_joined(o2));
    lemma_strip_prefix(out, nul_joined(o1), nul_joined(o2));
    lemma_nul_joined_injective(o1, o2);
}

/// After the tag of a callback, its name and its outputs are read back
/// from the bytes: the name ends where "out" and a zero byte begin.
proof fn lemma_callback_tail(a: Seq<char>, b: Seq<char>, o1: Seq<Seq<char>>, o2: Seq<Seq<char>>)
    requires
        nul_free(a),
        nul_free(b),
        all_nul_free(o1),
        all_nul_free(o2),
        utf8(a) + seq![111u8, 117u8, 116u8] + seq![0u8] + nul_joined(o1) == utf8(b) + seq![111u8, 117u8, 116u8]
            + seq![0u8] + nul_joined(o2),
    ensures
        a == b,
        o1 == o2,
{
    let wa = utf8(a) + seq![111u8, 117u8, 116u8];
    let wb = utf8(b) + seq![111u8, 117u8, 116u8];
    lemma_utf8_no_zero(a);
    lemma_utf8_no_zero(b);
    assert forall|i: int| 0 <= i < wa.len() implies wa[i] != 0 by {
        if i < utf8(a).len() {
            assert(wa[i] == utf8(a)[i]);
        }
    }
    assert forall|i: int| 0 <= i < wb.len() implies wb[i] != 0 by {
        if i < utf8(b).len() {
            assert(wb[i] == utf8(b)[i]);
        }
    }
    lemma_split_at_zero(wa, wb, nul_joined(o1), nul_joined(o2));
    assert(utf8(a) =~= wa.subrange(0, wa.len() - 3));
    assert(utf8(b) =~= wb.subrange(0, wb.len() - 3));
    lemma_utf8_injective(a, b);
    lemma_nul_joined_injective(o1, o2);
}

} // verus!
