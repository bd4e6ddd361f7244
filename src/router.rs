use vstd::prelude::*;
use crate::command::{parse_private_message, private_command};
use crate::registry::Registry;
use crate::text::{decimal, decimal_string};

verus! {

/// `Client {sender}: ` — the sender tag that opens every outbound line.
pub open spec fn sender_tag(sender: nat) -> Seq<char> {
    seq!['C', 'l', 'i', 'e', 'n', 't', ' '] + decimal(sender) + seq![':', ' ']
}

/// The wire line of a broadcast: `Client {sender}: {line}` and a newline.
pub open spec fn broadcast_text(sender: nat, line: Seq<char>) -> Seq<char> {
    sender_tag(sender) + line + seq!['\n']
}

/// The wire line of a private delivery: `[Private] Client {sender}: {payload}`
/// and a newline.
pub open spec fn private_text(sender: nat, payload: Seq<char>) -> Seq<char> {
    seq!['[', 'P', 'r', 'i', 'v', 'a', 't', 'e', ']', ' '] + sender_tag(sender) + payload + seq![
        '\n',
    ]
}

/// The identities that one inbound line is delivered to: every registered
/// one for a broadcast, the target alone for a private command to a
/// registered identity, nobody for one to an unknown identity.
pub open spec fn route_targets<H>(reg: Registry<H>, line: Seq<char>) -> Seq<usize> {
    match private_command(line) {
        Some((t, _)) => if reg.contains(t as usize) {
            seq![t as usize]
        } else {
            Seq::empty()
        },
        None => reg.ids(),
    }
}

/// The outbound line that one inbound line from `sender` becomes.
pub open spec fn route_message(sender: nat, line: Seq<char>) -> Seq<char> {
    match private_command(line) {
        Some((_, p)) => private_text(sender, p),
        None => broadcast_text(sender, line),
    }
}

/// What the leading and trailing whitespace of a line leaves.
pub uninterp spec fn trimmed(s: Seq<char>) -> Seq<char>;

/// Relies on `str::trim`: the slice without leading and trailing whitespace,
/// a function of the characters alone; nothing stays nothing.
#[verifier::external_body]
fn trim_line(s: &str) -> (r: &str)
    ensures
        r@ == trimmed(s@),
        s@.len() == 0 ==> r@.len() == 0,
{
    s.trim()
}

/// One routing decision: the outbound line and whom to write it to.
pub struct Dispatch {
    pub targets: Vec<usize>,
    pub message: String,
}

fn tagged(sender: usize) -> (r: String)
    ensures
        r@ == sender_tag(sender as nat),
{
    proof {
        reveal_strlit("Client ");
        reveal_strlit(": ");
    }
    let mut s = String::from_str("Client ");
    let digits = decimal_string(sender);
    s.append(digits.as_str());
    s.append(": ");
    s
}

/// Formats a broadcast of `line` from `sender`.
pub fn broadcast_line(sender: usize, line: &str) -> (r: String)
    ensures
        r@ == broadcast_text(sender as nat, line@),
{
    proof {
        reveal_strlit("\n");
    }
    let mut s = tagged(sender);
    s.append(line);
    s.append("\n");
    s
}

/// Formats a private delivery of `payload` from `sender`.
pub fn private_line(sender: usize, payload: &str) -> (r: String)
    ensures
        r@ == private_text(sender as nat, payload@),
{
    proof {
        reveal_strlit("[Private] ");
        reveal_strlit("\n");
    }
    let mut s = String::from_str("[Private] ");
    let tag = tagged(sender);
    s.append(tag.as_str());
    s.append(payload);
    s.append("\n");
    assert(s@ =~= private_text(sender as nat, payload@));
    s
}

/// Routes one already trimmed line from `sender`: a private command goes to
/// its target if that identity is registered, anything else goes to every
/// registered connection, the sender included.
pub fn plan_route<H>(reg: &Registry<H>, sender: usize, line: &str) -> (d: Dispatch)
    requires
        reg.wf(),
    ensures
        d.targets@ == route_targets(*reg, line@),
        d.message@ == route_message(sender as nat, line@),
{
    match parse_private_message(line) {
        Some((target, payload)) => {
            let message = private_line(sender, payload.as_str());
            let mut targets: Vec<usize> = Vec::new();
            if reg.get(target).is_some() {
                targets.push(target);
            }
            proof {
                assert(targets@ =~= route_targets(*reg, line@));
            }
            Dispatch { targets, message }
        },
        None => Dispatch { targets: reg.ids_vec(), message: broadcast_line(sender, line) },
    }
}

/// Routes one line as read from `sender`'s connection, surrounding
/// whitespace and terminator included.
pub fn route_line<H>(reg: &Registry<H>, sender: usize, raw: &str) -> (d: Dispatch)
    requires
        reg.wf(),
    ensures
        d.targets@ == route_targets(*reg, trimmed(raw@)),
        d.message@ == route_message(sender as nat, trimmed(raw@)),
{
    let line = trim_line(raw);
    plan_route(reg, sender, line)
}

/// Filtering twice is filtering once by both conditions.
proof fn lemma_filter_twice(s: Seq<usize>, p: spec_fn(usize) -> bool, q: spec_fn(usize) -> bool)
    ensures
        s.filter(p).filter(q) == s.filter(|x: usize| p(x) && q(x)),
    decreases s.len(),
{
    reveal(Seq::filter);
    if s.len() > 0 {
        lemma_filter_twice(s.drop_last(), p, q);
        let t = s.drop_last().filter(p);
        if p(s.last()) {
            assert(t.push(s.last()).drop_last() =~= t);
        }
    }
}

/// The test that keeps everything but `v`.
spec fn other_than(v: usize) -> spec_fn(usize) -> bool {
    |x: usize| x != v
}

/// Filtering by a test that every element passes changes nothing.
proof fn lemma_filter_keeps_all(s: Seq<usize>, p: spec_fn(usize) -> bool)
    requires
        forall|k: int| 0 <= k < s.len() ==> p(#[trigger] s[k]),
    ensures
        s.filter(p) == s,
    decreases s.len(),
{
    reveal(Seq::filter);
    if s.len() > 0 {
        let t = s.drop_last();
        assert forall|k: int| 0 <= k < t.len() implies p(#[trigger] t[k]) by {
            assert(t[k] == s[k]);
        }
        lemma_filter_keeps_all(t, p);
        assert(p(s[s.len() - 1]));
        assert(t.push(s.last()) =~= s);
    }
}

/// Removing the one occurrence of `s[i]` from a sequence without
/// duplicates is filtering that value out.
proof fn lemma_remove_is_filter(s: Seq<usize>, i: int)
    requires
        s.no_duplicates(),
        0 <= i < s.len(),
    ensures
        s.remove(i) == s.filter(other_than(s[i])),
    decreases s.len(),
{
    reveal(Seq::filter);
    let v = s[i];
    let t = s.drop_last();
    if i == s.len() - 1 {
        assert forall|k: int| 0 <= k < t.len() implies other_than(v)(#[trigger] t[k]) by {
            assert(t[k] == s[k]);
        }
        lemma_filter_keeps_all(t, other_than(v));
        assert(s.remove(i) =~= t);
    } else {
        assert(t.no_duplicates());
        assert(t[i] == v);
        lemma_remove_is_filter(t, i);
        assert(s.last() != v);
        assert(s.remove(i) =~= t.remove(i).push(s.last()));
    }
}

/// Removes every identity whose write failed during a dispatch. Identities
/// that are already gone are skipped; every other entry stays as it was.
pub fn evict_failed<H>(reg: &mut Registry<H>, failed: &Vec<usize>)
    requires
        old(reg).wf(),
    ensures
        final(reg).wf(),
        final(reg).ids() == old(reg).ids().filter(|x: usize| !failed@.contains(x)),
        forall|id: usize|
            #![auto]
            final(reg).lookup(id) == if failed@.contains(id) {
                None
            } else {
                old(reg).lookup(id)
            },
        forall|id: usize|
            #![auto]
            final(reg).contains(id) <==> (old(reg).contains(id) && !failed@.contains(id)),
{
    let mut i: usize = 0;
    proof {
        let none_yet = |x: usize| !failed@.subrange(0, 0).contains(x);
        assert forall|k: int| 0 <= k < reg.ids().len() implies none_yet(#[trigger] reg.ids()[k]) by {
            assert(failed@.subrange(0, 0).len() == 0);
        }
        lemma_filter_keeps_all(reg.ids(), none_yet);
    }
    while i < failed.len()
        invariant
            i <= failed@.len(),
            reg.wf(),
            reg.ids() == old(reg).ids().filter(
                |x: usize| !failed@.subrange(0, i as int).contains(x),
            ),
            forall|id: usize|
                #![auto]
                reg.lookup(id) == if failed@.subrange(0, i as int).contains(id) {
                    None
                } else {
                    old(reg).lookup(id)
                },
            forall|id: usize|
                #![auto]
                reg.contains(id) <==> (old(reg).contains(id) && !failed@.subrange(
                    0,
                    i as int,
                ).contains(id)),
        decreases failed@.len() - i,
    {
        let ghost pre = failed@.subrange(0, i as int);
        let ghost cur = reg.ids();
        let v = failed[i];
        reg.remove(v);
        i = i + 1;
        proof {
            let post = failed@.subrange(0, i as int);
            assert(post =~= pre.push(failed@[i - 1]));
            assert forall|id: usize| #![auto] post.contains(id) <==> (pre.contains(id) || id
                == failed@[i - 1]) by {
                if post.contains(id) {
                    let k = choose|k: int| 0 <= k < post.len() && post[k] == id;
                    if k < pre.len() {
                        assert(pre[k] == id);
                    }
                }
                if pre.contains(id) {
                    let k = choose|k: int| 0 <= k < pre.len() && pre[k] == id;
                    assert(post[k] == id);
                }
                if id == failed@[i - 1] {
                    assert(post[i - 1] == id);
                }
            }
            let keep_pre: spec_fn(usize) -> bool = |x: usize| !pre.contains(x);
            let keep_post: spec_fn(usize) -> bool = |x: usize| !post.contains(x);
            let not_v = other_than(v);
            if cur.contains(v) {
                let k = choose|k: int|
                    0 <= k < cur.len() && cur[k] == v && reg.ids() == cur.remove(k);
                lemma_remove_is_filter(cur, k);
            } else {
                assert forall|k: int| 0 <= k < cur.len() implies not_v(#[trigger] cur[k]) by {
                    assert(cur.contains(cur[k]));
                }
                lemma_filter_keeps_all(cur, not_v);
            }
            assert(reg.ids() == cur.filter(not_v));
            lemma_filter_twice(old(reg).ids(), keep_pre, not_v);
            assert(keep_post =~= (|x: usize| keep_pre(x) && not_v(x)));
        }
    }
    assert(failed@.subrange(0, i as int) =~= failed@);
}

/// A broadcast reaches every identity registered at dispatch time, each
/// exactly once, and nobody else.
pub proof fn lemma_broadcast_reaches_each_once<H>(reg: Registry<H>, line: Seq<char>)
    requires
        reg.wf(),
        private_command(line) is None,
    ensures
        route_targets(reg, line).no_duplicates(),
        forall|id: usize| #![auto] route_targets(reg, line).contains(id) <==> reg.contains(id),
{
}

/// A private command reaches its target alone when the target is
/// registered, and nobody when it is not.
pub proof fn lemma_private_reaches_target_only<H>(reg: Registry<H>, line: Seq<char>)
    requires
        reg.wf(),
        private_command(line) is Some,
    ensures
        ({
            let t = private_command(line).unwrap().0 as usize;
            &&& route_targets(reg, line).len() <= 1
            &&& reg.contains(t) ==> route_targets(reg, line) == seq![t]
            &&& !reg.contains(t) ==> route_targets(reg, line).len() == 0
            &&& forall|id: usize| #![auto] route_targets(reg, line).contains(id) ==> id == t
        }),
{
    let t = private_command(line).unwrap().0 as usize;
    assert forall|id: usize| #![auto] route_targets(reg, line).contains(id) implies id == t by {
        let k = choose|k: int|
            0 <= k < route_targets(reg, line).len() && route_targets(reg, line)[k] == id;
    }
}

} // verus!
