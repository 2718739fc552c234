//! One CLI invocation against the store: add a binding, look one up, or
//! list them all.  The decisions are made here; printing, the clipboard
//! and the backing file are the caller's side effects, driven by `Reply`.

use vstd::prelude::*;

use crate::store::{pairs_of, Entry, LinkMap};

verus! {

/// A subcommand had the wrong number of positional values.
#[derive(Debug)]
pub struct UsageError;

/// One parsed invocation.
pub enum Command {
    /// `add`, with its positional values; exactly two are accepted.
    Add { tokens: Vec<Vec<u8>> },
    /// `get`, with the abbreviation to look up.
    Get { abbrev: Vec<u8> },
    /// `list`, with nothing else.
    List,
    /// No subcommand at all.
    Help,
}

/// What one invocation decided; the caller renders it and performs the
/// side effects it calls for.
pub enum Reply {
    /// The binding was upserted; the store must be persisted.
    Added { abbrev: Vec<u8>, target: Vec<u8> },
    /// The abbreviation is bound; the target goes to the clipboard.
    Found { abbrev: Vec<u8>, target: Vec<u8> },
    /// The abbreviation is not bound; a normal outcome, not an error.
    Missing { abbrev: Vec<u8> },
    /// All bindings, sorted by abbreviation.
    Listing { entries: Vec<Entry> },
    /// A hint to ask for help.
    HelpHint,
}

/// A byte the `add` target is stripped of.
pub open spec fn is_forbidden(b: u8) -> bool {
    b == 40 || b == 41 || b == 39  // ( ) '
}

/// `s` with parentheses and single quotes removed.
pub open spec fn strip(s: Seq<u8>) -> Seq<u8>
    decreases s.len(),
{
    if s.len() == 0 {
        Seq::empty()
    } else if is_forbidden(s[0]) {
        strip(s.drop_first())
    } else {
        seq![s[0]] + strip(s.drop_first())
    }
}

/// One stripped byte more at the end.
proof fn lemma_strip_take_succ(s: Seq<u8>, k: int)
    requires
        0 <= k < s.len(),
    ensures
        strip(s.take(k + 1)) == if is_forbidden(s[k]) {
            strip(s.take(k))
        } else {
            strip(s.take(k)) + seq![s[k]]
        },
    decreases k,
{
    if k == 0 {
        assert(s.take(1).len() == 1);
        assert(s.take(1)[0] == s[0]);
        assert(s.take(1).drop_first().len() == 0);
        assert(strip(s.take(1).drop_first()) =~= Seq::<u8>::empty());
        assert(s.take(0).len() == 0);
        assert(strip(s.take(0)) =~= Seq::<u8>::empty());
        if !is_forbidden(s[0]) {
            assert(strip(s.take(1)) =~= strip(s.take(0)) + seq![s[0]]);
        }
    } else {
        let rest = s.drop_first();
        lemma_strip_take_succ(rest, k - 1);
        assert(s.take(k + 1).len() == k + 1);
        assert(s.take(k + 1)[0] == s[0]);
        assert(s.take(k + 1).drop_first() =~= rest.take(k));
        assert(s.take(k).len() == k);
        assert(s.take(k)[0] == s[0]);
        assert(s.take(k).drop_first() =~= rest.take(k - 1));
        assert(rest[k - 1] == s[k]);
        if is_forbidden(s[0]) {
            assert(strip(s.take(k + 1)) == strip(rest.take(k)));
            assert(strip(s.take(k)) == strip(rest.take(k - 1)));
        } else {
            assert(strip(s.take(k + 1)) == seq![s[0]] + strip(rest.take(k)));
            assert(strip(s.take(k)) == seq![s[0]] + strip(rest.take(k - 1)));
            if !is_forbidden(s[k]) {
                assert(seq![s[0]] + (strip(rest.take(k - 1)) + seq![s[k]]) =~= (seq![s[0]]
                    + strip(rest.take(k - 1))) + seq![s[k]]);
            }
        }
    }
}

/// Removes parentheses and single quotes from a target before it is stored.
#[verifier::loop_isolation(false)]
pub fn sanitize_string(s: &Vec<u8>) -> (r: Vec<u8>)
    ensures
        r@ == strip(s@),
{
    let mut out: Vec<u8> = Vec::new();
    proof {
        assert(s@.take(0).len() == 0);
        assert(strip(s@.take(0)) =~= Seq::<u8>::empty());
    }
    let mut i: usize = 0;
    while i < s.len()
        invariant
            i <= s@.len(),
            out@ == strip(s@.take(i as int)),
        decreases s@.len() - i,
    {
        let c = s[i];
        let ghost out0 = out@;
        if !(c == 40 || c == 41 || c == 39) {
            out.push(c);
            proof {
                assert(out@ =~= out0 + seq![c]);
            }
        }
        proof {
            lemma_strip_take_succ(s@, i as int);
        }
        i = i + 1;
    }
    proof {
        assert(s@.take(s@.len() as int) =~= s@);
    }
    out
}

/// An owned copy of a byte vector.
fn copy_bytes(v: &Vec<u8>) -> (r: Vec<u8>)
    ensures
        r@ == v@,
{
    let mut out: Vec<u8> = Vec::new();
    let mut i: usize = 0;
    while i < v.len()
        invariant
            i <= v@.len(),
            out@ == v@.take(i as int),
        decreases v@.len() - i,
    {
        out.push(v[i]);
        proof {
            assert(v@.take(i as int).push(v@[i as int]) =~= v@.take(i + 1));
        }
        i = i + 1;
    }
    proof {
        assert(v@.take(v@.len() as int) =~= v@);
    }
    out
}

/// An owned copy of listed entries, binding for binding.
fn copy_entries(es: &Vec<Entry>) -> (r: Vec<Entry>)
    ensures
        pairs_of(r@) == pairs_of(es@),
{
    let mut out: Vec<Entry> = Vec::new();
    let mut i: usize = 0;
    while i < es.len()
        invariant
            i <= es@.len(),
            out@.len() == i,
            forall|j: int| 0 <= j < i ==> (#[trigger] out@[j]).abbrev@ == es@[j].abbrev@
                && out@[j].target@ == es@[j].target@,
        decreases es@.len() - i,
    {
        let e = Entry { abbrev: copy_bytes(&es[i].abbrev), target: copy_bytes(&es[i].target) };
        out.push(e);
        i = i + 1;
    }
    proof {
        assert(pairs_of(out@) =~= pairs_of(es@));
    }
    out
}

/// Carries one invocation out against the store.  `add` upserts its
/// sanitized target and asks the caller to persist; `get` reports a hit or
/// a miss and never changes the store; `list` hands the sorted bindings
/// back; no subcommand asks for the help hint.  The only error is an `add`
/// without exactly two positional values, which leaves the store as it was.
pub fn run_command(map: &mut LinkMap, cmd: Command) -> (r: Result<Reply, UsageError>)
    requires
        old(map).wf(),
    ensures
        final(map).wf(),
        (match cmd {
            Command::Add { tokens } => {
                if tokens@.len() == 2 {
                    &&& final(map)@ == old(map)@.insert(tokens@[0]@, strip(tokens@[1]@))
                    &&& (r matches Ok(rep) && rep matches Reply::Added { abbrev, target }
                        && abbrev@ == tokens@[0]@ && target@ == strip(tokens@[1]@))
                } else {
                    &&& *final(map) == *old(map)
                    &&& r is Err
                }
            },
            Command::Get { abbrev } => {
                &&& *final(map) == *old(map)
                &&& (if old(map)@.contains_key(abbrev@) {
                    r matches Ok(rep) && rep matches Reply::Found { abbrev: a, target: t }
                        && a@ == abbrev@ && t@ == old(map)@[abbrev@]
                } else {
                    r matches Ok(rep) && rep matches Reply::Missing { abbrev: a } && a@ == abbrev@
                })
            },
            Command::List => {
                &&& *final(map) == *old(map)
                &&& (r matches Ok(rep) && rep matches Reply::Listing { entries } && pairs_of(
                    entries@,
                ) == old(map).entries_view())
            },
            Command::Help => {
                &&& *final(map) == *old(map)
                &&& (r matches Ok(rep) && rep is HelpHint)
            },
        }),
{
    match cmd {
        Command::Add { tokens } => {
            if tokens.len() != 2 {
                Err(UsageError)
            } else {
                let abbrev = copy_bytes(&tokens[0]);
                let target = sanitize_string(&tokens[1]);
                let abbrev_echo = copy_bytes(&abbrev);
                let target_echo = copy_bytes(&target);
                map.insert(abbrev, target);
                Ok(Reply::Added { abbrev: abbrev_echo, target: target_echo })
            }
        },
        Command::Get { abbrev } => {
            match map.get(&abbrev) {
                Some(t) => {
                    let target = copy_bytes(t);
                    Ok(Reply::Found { abbrev, target })
                },
                None => Ok(Reply::Missing { abbrev }),
            }
        },
        Command::List => {
            let entries = copy_entries(map.list());
            Ok(Reply::Listing { entries })
        },
        Command::Help => Ok(Reply::HelpHint),
    }
}

} // verus!
