//! Writing build methods in a form a person can read.

use crate::graph::hash::{append_bytes, append_str, utf8};
use crate::graph::BuildMethod;
use vstd::prelude::*;

verus! {

/// A word quoted for a POSIX shell where it needs it, as
/// `shlex::bytes::try_quote` gives it.
pub uninterp spec fn shlex_quoted(word: Seq<u8>) -> Seq<u8>;

/// `shlex::bytes::try_quote`: the word quoted for a POSIX shell where it
/// needs it. It fails exactly when the word holds a nul byte.
#[verifier::external_body]
fn shlex_try_quote(word: &[u8]) -> (r: Option<Vec<u8>>)
    ensures
        r is None <==> word@.contains(0u8),
        r matches Some(q) ==> q@ == shlex_quoted(word@),
{
    match shlex::bytes::try_quote(word) {
        Ok(q) => Some(q.into_owned()),
        Err(_) => None,
    }
}

/// The reason a build method cannot be written readably.
#[derive(Debug, Clone, Copy, PartialEq, Eq, Structural)]
pub enum QuoteError {
    /// A word of the command holds a nul byte, which no shell quoting can
    /// carry.
    Nul,
}

/// Quoting the program or one of the arguments fails.
pub open spec fn command_fails(exe: Seq<u8>, args: Seq<Seq<u8>>) -> bool {
    exe.contains(0u8) || exists|i: int| 0 <= i < args.len() && (#[trigger] args[i]).contains(0u8)
}

/// What is written of a command: the program quoted, then a space and each
/// argument quoted, up to the first word that cannot be quoted, of which
/// only the space before it is written.
pub open spec fn command_written(exe: Seq<u8>, args: Seq<Seq<u8>>) -> Seq<u8>
    decreases args.len(),
{
    if args.len() == 0 {
        if exe.contains(0u8) {
            Seq::empty()
        } else {
            shlex_quoted(exe)
        }
    } else {
        let before = command_written(exe, args.drop_last());
        if command_fails(exe, args.drop_last()) {
            before
        } else if args.last().contains(0u8) {
            before + seq![32u8]
        } else {
            before + seq![32u8] + shlex_quoted(args.last())
        }
    }
}

/// The UTF-8 bytes of each argument.
pub open spec fn arg_bytes(args: Seq<String>) -> Seq<Seq<u8>> {
    args.map_values(|a: String| utf8(a@))
}

/// What is written of a build method: its command, or `<callback: NAME>`,
/// or `<phony>`.
pub open spec fn readable_written(m: BuildMethod) -> Seq<u8> {
    match m {
        BuildMethod::SubCommand(c) => command_written(utf8(c.executable@), arg_bytes(c.args@)),
        BuildMethod::Callback(name) => utf8("<callback: "@) + utf8(name@) + utf8(">"@),
        BuildMethod::Phony => utf8("<phony>"@),
    }
}

/// Writing a build method fails: a word of its command holds a nul byte.
pub open spec fn readable_fails(m: BuildMethod) -> bool {
    match m {
        BuildMethod::SubCommand(c) => command_fails(utf8(c.executable@), arg_bytes(c.args@)),
        _ => false,
    }
}

impl BuildMethod {
    /// Write the method in a form a person can read: a command as a shell
    /// would take it, each word quoted where it needs it.
    pub fn write_human_readable(&self, w: &mut Vec<u8>) -> (r: Result<(), QuoteError>)
        ensures
            final(w)@ == old(w)@ + readable_written(*self),
            r is Err <==> readable_fails(*self),
    {
        match self {
            BuildMethod::SubCommand(cmd) => {
                let ghost exe = utf8(cmd.executable@);
                let ghost args = arg_bytes(cmd.args@);
                let ghost w0 = w@;
                match shlex_try_quote(cmd.executable.as_str().as_bytes()) {
                    Some(q) => append_bytes(w, q.as_slice()),
                    None => {
                        proof {
                            assert(command_written(exe, args.subrange(0, 0)) == Seq::<u8>::empty());
                            lemma_failed_prefix(exe, args, 0);
                            assert(w@ =~= w0 + command_written(exe, args));
                        }
                        return Err(QuoteError::Nul);
                    },
                }
                let mut i: usize = 0;
                proof {
                    assert(args.subrange(0, 0) =~= Seq::<Seq<u8>>::empty());
                    assert(w@ == w0 + command_written(exe, args.subrange(0, 0)));
                }
                while i < cmd.args.len()
                    invariant
                        exe == utf8(cmd.executable@),
                        args == arg_bytes(cmd.args@),
                        w0 == old(w)@,
                        readable_written(*self) == command_written(exe, args),
                        readable_fails(*self) == command_fails(exe, args),
                        i <= cmd.args@.len(),
                        w@ == w0 + command_written(exe, args.subrange(0, i as int)),
                        !command_fails(exe, args.subrange(0, i as int)),
                    decreases cmd.args@.len() - i,
                {
                    let ghost pre = args.subrange(0, i as int);
                    let ghost post = args.subrange(0, i + 1);
                    proof {
                        assert(post.drop_last() =~= pre);
                        assert(post.last() == utf8(cmd.args@[i as int]@));
                    }
                    w.push(32u8);
                    match shlex_try_quote(cmd.args[i].as_str().as_bytes()) {
                        Some(q) => {
                            append_bytes(w, q.as_slice());
                            proof {
                                assert(w@ =~= w0 + command_written(exe, post));
                                assert forall|j: int| 0 <= j < post.len() implies !(#[trigger] post[j]).contains(0u8) by {
                                    if j < i {
                                        assert(post[j] == pre[j]);
                                    }
                                }
                            }
                        },
                        None => {
                            proof {
                                assert(w@ =~= w0 + command_written(exe, post));
                                assert(command_fails(exe, post));
                                lemma_failed_prefix(exe, args, i + 1);
                            }
                            return Err(QuoteError::Nul);
                        },
                    }
                    i = i + 1;
                }
                proof {
                    assert(args.subrange(0, i as int) =~= args);
                }
                Ok(())
            },
            BuildMethod::Callback(name) => {
                append_str(w, "<callback: ");
                append_str(w, name.as_str());
                append_str(w, ">");
                proof {
                    assert(w@ =~= old(w)@ + readable_written(*self));
                }
                Ok(())
            },
            BuildMethod::Phony => {
                append_str(w, "<phony>");
                Ok(())
            },
        }
    }
}

/// Once quoting has failed on a prefix of the arguments, the later ones
/// write nothing more, and the whole fails.
proof fn lemma_failed_prefix(exe: Seq<u8>, args: Seq<Seq<u8>>, k: int)
    requires
        0 <= k <= args.len(),
        command_fails(exe, args.subrange(0, k)),
    ensures
        command_written(exe, args) == command_written(exe, args.subrange(0, k)),
        command_fails(exe, args),
    decreases args.len() - k,
{
    if k < args.len() {
        let pre = args.subrange(0, k);
        let post = args.subrange(0, k + 1);
        assert(post.drop_last() =~= pre);
        assert forall|i: int| 0 <= i < pre.len() && (#[trigger] pre[i]).contains(0u8) implies post[i].contains(0u8) by {
            assert(post[i] == pre[i]);
        }
        lemma_failed_prefix(exe, args, k + 1);
    } else {
        assert(args.subrange(0, k) =~= args);
    }
}

} // verus!
