//! Process tree reconstruction from telemetry.
//!
//! Build a parent→child graph from (pid, ppid) pairs, then answer reachability
//! queries: which processes could have influenced process X? This is the
//! backbone of cross-process correlation — an attack chain is a path in this
//! tree combined with data-flow edges.
use std::collections::BTreeMap;
use vstd::prelude::*;

use crate::event::Event;
use crate::text::{chars_of, decimal, decimal_chars, joined, pieces, push_chars, push_str, split, string_of, Sep};

verus! {

broadcast use {vstd::laws_cmp::group_laws_cmp, vstd::std_specs::btree::group_btree_axioms};

/// How many parent links a walk up the tree follows at most (a guard
/// against cycles in malformed telemetry).
pub const MAX_HOPS: usize = 65;

#[derive(Debug)]
pub struct ProcTree {
    /// pid -> ppid (latest observation wins; telemetry may be out of order)
    parent: BTreeMap<u32, u32>,
    /// pid -> exe of that pid (latest)
    exe: BTreeMap<u32, String>,
    /// pid -> cmdline (latest)
    cmdline: BTreeMap<u32, String>,
}

/// What a process tree knows: for each observed pid its parent, and the
/// latest non-empty executable path and command line seen for it.
pub struct TreeView {
    pub parent: Map<u32, u32>,
    pub exe: Map<u32, Seq<char>>,
    pub cmdline: Map<u32, Seq<char>>,
}

impl View for ProcTree {
    type V = TreeView;

    closed spec fn view(&self) -> TreeView {
        TreeView {
            parent: self.parent@,
            exe: self.exe@.map_values(|s: String| s@),
            cmdline: self.cmdline@.map_values(|s: String| s@),
        }
    }
}

/// The empty tree.
pub open spec fn empty_tree() -> TreeView {
    TreeView { parent: Map::empty(), exe: Map::empty(), cmdline: Map::empty() }
}

/// The tree after observing `e`: failed calls and events of pid 0 are
/// ignored; otherwise the pid's parent becomes `e.ppid`, and its executable
/// path and command line are replaced by the event's when those are not
/// empty.
pub open spec fn observe(t: TreeView, e: Event) -> TreeView {
    if e.pid == 0 || !e.success {
        t
    } else {
        TreeView {
            parent: t.parent.insert(e.pid, e.ppid),
            exe: if e.exe@.len() > 0 {
                t.exe.insert(e.pid, e.exe@)
            } else {
                t.exe
            },
            cmdline: if e.cmdline@.len() > 0 {
                t.cmdline.insert(e.pid, e.cmdline@)
            } else {
                t.cmdline
            },
        }
    }
}

/// The tree built from a stream of events, observed in order.
pub open spec fn tree_of(evs: Seq<Event>) -> TreeView
    decreases evs.len(),
{
    if evs.len() == 0 {
        empty_tree()
    } else {
        observe(tree_of(evs.drop_last()), evs.last())
    }
}

/// The first `n` ancestors of `pid`: its parent, grandparent, ..., as far
/// as parents are known.
pub open spec fn ancestors(parent: Map<u32, u32>, pid: u32, n: nat) -> Seq<u32>
    decreases n,
{
    if n == 0 || !parent.contains_key(pid) {
        Seq::empty()
    } else {
        seq![parent[pid]] + ancestors(parent, parent[pid], (n - 1) as nat)
    }
}

/// Like `ancestors`, but stopping before a process that is its own parent
/// and before a parent that was never observed itself.
pub open spec fn lineage(parent: Map<u32, u32>, pid: u32, n: nat) -> Seq<u32>
    decreases n,
{
    if n == 0 || !parent.contains_key(pid) || parent[pid] == pid || !parent.contains_key(
        parent[pid],
    ) {
        Seq::empty()
    } else {
        seq![parent[pid]] + lineage(parent, parent[pid], (n - 1) as nat)
    }
}

/// The chain of `pid`: from its highest observed ancestor down to `pid`.
pub open spec fn chain_of(parent: Map<u32, u32>, pid: u32) -> Seq<u32> {
    (seq![pid] + lineage(parent, pid, MAX_HOPS as nat)).reverse()
}

/// The last component of a path, as `path.rsplit('/').next()` gives it.
pub open spec fn short_name(path: Seq<char>) -> Seq<char> {
    pieces(path, Sep::Char('/')).last()
}

/// How one process is shown in a chain: `name(pid)`, with `?` for a process
/// whose executable is unknown.
pub open spec fn node_label(exe: Map<u32, Seq<char>>, p: u32) -> Seq<char> {
    let name = if exe.contains_key(p) {
        short_name(exe[p])
    } else {
        "?"@
    };
    name + "("@ + decimal(p as nat) + ")"@
}

/// The rendered chain of `pid`: its nodes joined by ` → `.
pub open spec fn chain_text(t: TreeView, pid: u32) -> Seq<char> {
    joined(chain_of(t.parent, pid).map_values(|p: u32| node_label(t.exe, p)), " → "@)
}

impl Default for ProcTree {
    fn default() -> (t: ProcTree)
        ensures
            t@ == empty_tree(),
    {
        ProcTree::new()
    }
}

impl ProcTree {
    /// The empty tree.
    pub fn new() -> (t: ProcTree)
        ensures
            t@ == empty_tree(),
    {
        let t = ProcTree { parent: BTreeMap::new(), exe: BTreeMap::new(), cmdline: BTreeMap::new() };
        assert(t@.exe =~= Map::<u32, Seq<char>>::empty());
        assert(t@.cmdline =~= Map::<u32, Seq<char>>::empty());
        t
    }

    /// Builds the tree of a stream: every successful event with a non-zero
    /// pid records that pid's parent, executable and command line (latest
    /// wins); failed calls are skipped.
    pub fn build(events: &[Event]) -> (t: ProcTree)
        ensures
            t@ == tree_of(events@),
    {
        let mut t = ProcTree::new();
        let mut i: usize = 0;
        while i < events.len()
            invariant
                i <= events@.len(),
                t@ == tree_of(events@.take(i as int)),
            decreases events.len() - i,
        {
            let e = &events[i];
            let ghost before = t@;
            proof {
                assert(events@.take(i + 1).drop_last() =~= events@.take(i as int));
            }
            if e.pid != 0 && e.success {
                t.parent.insert(e.pid, e.ppid);
                if !e.exe.as_str().is_empty() {
                    t.exe.insert(e.pid, e.exe.clone());
                }
                if !e.cmdline.as_str().is_empty() {
                    t.cmdline.insert(e.pid, e.cmdline.clone());
                }
                proof {
                    let after = observe(before, *e);
                    assert(t@.exe =~= after.exe);
                    assert(t@.cmdline =~= after.cmdline);
                }
            }
            i = i + 1;
        }
        assert(events@.take(events@.len() as int) =~= events@);
        t
    }

    /// Is `ancestor` an ancestor of `pid` in the observed tree (within the
    /// first 65 parent links)?
    pub fn is_ancestor(&self, ancestor: u32, pid: u32) -> (r: bool)
        ensures
            r == ancestors(self@.parent, pid, MAX_HOPS as nat).contains(ancestor),
    {
        let mut cur = pid;
        let mut hops: usize = 0;
        loop
            invariant
                hops < MAX_HOPS,
                ancestors(self@.parent, pid, MAX_HOPS as nat).contains(ancestor) ==
                    ancestors(self@.parent, cur, (MAX_HOPS - hops) as nat).contains(ancestor),
            decreases MAX_HOPS - hops,
        {
            match self.parent.get(&cur) {
                None => {
                    return false;
                },
                Some(p) => {
                    let p = *p;
                    let ghost rest = ancestors(self@.parent, p, (MAX_HOPS - hops - 1) as nat);
                    assert(ancestors(self@.parent, cur, (MAX_HOPS - hops) as nat) == seq![p]
                        + rest);
                    if p == ancestor {
                        assert((seq![p] + rest)[0] == p);
                        return true;
                    }
                    assert((seq![p] + rest).contains(ancestor) == rest.contains(ancestor)) by {
                        if rest.contains(ancestor) {
                            let k = choose|k: int| 0 <= k < rest.len() && rest[k] == ancestor;
                            assert((seq![p] + rest)[k + 1] == ancestor);
                        }
                    }
                    cur = p;
                    hops = hops + 1;
                    if hops >= MAX_HOPS {
                        return false;
                    }
                },
            }
        }
    }

    /// Path from the highest observed ancestor down to `pid` (exclusive of
    /// processes never observed).
    pub fn chain(&self, pid: u32) -> (path: Vec<u32>)
        ensures
            path@ == chain_of(self@.parent, pid),
    {
        let mut up: Vec<u32> = Vec::new();
        up.push(pid);
        let mut cur = pid;
        let mut hops: usize = 0;
        loop
            invariant
                hops <= MAX_HOPS,
                seq![pid] + lineage(self@.parent, pid, MAX_HOPS as nat) == up@ + lineage(
                    self@.parent,
                    cur,
                    (MAX_HOPS - hops) as nat,
                ),
            ensures
                seq![pid] + lineage(self@.parent, pid, MAX_HOPS as nat) == up@,
            decreases MAX_HOPS - hops,
        {
            if hops >= MAX_HOPS {
                assert(up@ + lineage(self@.parent, cur, 0) =~= up@);
                break;
            }
            match self.parent.get(&cur) {
                None => {
                    assert(up@ + lineage(self@.parent, cur, (MAX_HOPS - hops) as nat) =~= up@);
                    break;
                },
                Some(p) => {
                    let p = *p;
                    if p == cur || !self.parent.contains_key(&p) {
                        assert(up@ + lineage(self@.parent, cur, (MAX_HOPS - hops) as nat) =~= up@);
                        break;
                    }
                    let ghost rest = lineage(self@.parent, p, (MAX_HOPS - hops - 1) as nat);
                    assert(lineage(self@.parent, cur, (MAX_HOPS - hops) as nat) == seq![p] + rest);
                    let ghost before = up@;
                    up.push(p);
                    assert(before + (seq![p] + rest) =~= up@ + rest);
                    cur = p;
                    hops = hops + 1;
                },
            }
        }
        let ghost full = seq![pid] + lineage(self@.parent, pid, MAX_HOPS as nat);
        assert(full =~= up@);
        let mut path: Vec<u32> = Vec::new();
        let mut k: usize = up.len();
        while k > 0
            invariant
                k <= up@.len(),
                path@ == up@.skip(k as int).reverse(),
            decreases k,
        {
            k = k - 1;
            path.push(up[k]);
            assert(up@.skip(k as int).reverse() =~= up@.skip(k + 1).reverse().push(up@[k as int]));
        }
        assert(up@.skip(0) =~= up@);
        path
    }

    /// Render the chain as a human-readable string: sshd(900) → sh(1000) → curl(1001)
    pub fn chain_str(&self, pid: u32) -> (s: String)
        ensures
            s@ == chain_text(self@, pid),
    {
        let c = self.chain(pid);
        let ghost labels = c@.map_values(|p: u32| node_label(self@.exe, p));
        let mut buf: Vec<char> = Vec::new();
        let mut i: usize = 0;
        while i < c.len()
            invariant
                i <= c@.len(),
                c@ == chain_of(self@.parent, pid),
                labels == c@.map_values(|p: u32| node_label(self@.exe, p)),
                buf@ == joined(labels.take(i as int), " → "@),
            decreases c.len() - i,
        {
            let ghost before = buf@;
            if i > 0 {
                push_str(&mut buf, " → ");
            }
            let p = c[i];
            match self.exe.get(&p) {
                Some(path) => {
                    let name = short_exe(path.as_str());
                    push_chars(&mut buf, name.as_slice());
                },
                None => {
                    push_str(&mut buf, "?");
                },
            }
            push_str(&mut buf, "(");
            let digits = decimal_chars(p as u64);
            push_chars(&mut buf, digits.as_slice());
            push_str(&mut buf, ")");
            proof {
                assert(labels.take(i + 1).drop_last() =~= labels.take(i as int));
                assert(labels[i as int] == node_label(self@.exe, p));
                if i > 0 {
                    assert(buf@ =~= before + " → "@ + node_label(self@.exe, p));
                } else {
                    assert(buf@ =~= node_label(self@.exe, p));
                    assert(labels.take(1) =~= seq![labels[0]]);
                }
            }
            i = i + 1;
        }
        assert(labels.take(c@.len() as int) =~= labels);
        string_of(buf.as_slice())
    }
}

/// The last component of a path.
fn short_exe(path: &str) -> (name: Vec<char>)
    ensures
        name@ == short_name(path@),
{
    let cs = chars_of(path);
    let mut parts = split(cs.as_slice(), Sep::Char('/'));
    proof {
        crate::text::lemma_pieces_nonempty(path@, Sep::Char('/'));
    }
    let n = parts.len();
    let last = parts.remove(n - 1);
    proof {
        assert(last.deep_view() =~= last@);
    }
    last
}


// ------------------------------------------------------------------------
// Laws
// ------------------------------------------------------------------------

/// The lineage is a prefix of the ancestors, and each element of it is the
/// parent of the one before (the first being `pid`'s parent).
pub proof fn lemma_lineage_walks_up(parent: Map<u32, u32>, pid: u32, n: nat)
    ensures
        lineage(parent, pid, n).len() <= ancestors(parent, pid, n).len(),
        forall|k: int|
            0 <= k < lineage(parent, pid, n).len() ==> #[trigger] lineage(parent, pid, n)[k]
                == ancestors(parent, pid, n)[k],
        lineage(parent, pid, n).len() > 0 ==> parent.contains_key(pid) && lineage(parent, pid, n)[0]
            == parent[pid],
        forall|k: int|
            0 <= k < lineage(parent, pid, n).len() ==> parent.contains_key(
                #[trigger] lineage(parent, pid, n)[k],
            ),
        forall|k: int|
            0 <= k < lineage(parent, pid, n).len() - 1 ==> parent.contains_key(
                #[trigger] lineage(parent, pid, n)[k],
            ) && lineage(parent, pid, n)[k + 1] == parent[lineage(parent, pid, n)[k]],
    decreases n,
{
    if n > 0 && parent.contains_key(pid) && parent[pid] != pid && parent.contains_key(parent[pid]) {
        let p = parent[pid];
        lemma_lineage_walks_up(parent, p, (n - 1) as nat);
        let l = lineage(parent, pid, n);
        let a = ancestors(parent, pid, n);
        let l1 = lineage(parent, p, (n - 1) as nat);
        let a1 = ancestors(parent, p, (n - 1) as nat);
        assert(l == seq![p] + l1);
        assert(a == seq![p] + a1);
        assert forall|k: int| 0 <= k < l.len() implies #[trigger] l[k] == a[k] by {
            if k > 0 {
                assert(l[k] == l1[k - 1]);
                assert(a[k] == a1[k - 1]);
            }
        }
        assert forall|k: int| 0 <= k < l.len() - 1 implies parent.contains_key(#[trigger] l[k])
            && l[k + 1] == parent[l[k]] by {
            if k > 0 {
                assert(l[k] == l1[k - 1]);
                assert(l[k + 1] == l1[k]);
            } else {
                assert(l[1] == l1[0]);
            }
        }
        assert forall|k: int| 0 <= k < l.len() implies parent.contains_key(#[trigger] l[k]) by {
            if k > 0 {
                assert(l[k] == l1[k - 1]);
            }
        }
    }
}

/// Chain law: the chain of `pid` ends with `pid`; every process before it
/// in the chain is an ancestor of `pid` (so `is_ancestor` holds of it) that
/// was itself observed (the chain leaves out unknown processes); and each
/// process in the chain is the recorded parent of the next.
pub proof fn law_chain_is_ancestry(t: TreeView, pid: u32)
    ensures
        chain_of(t.parent, pid).len() >= 1,
        chain_of(t.parent, pid).last() == pid,
        forall|i: int|
            0 <= i < chain_of(t.parent, pid).len() - 1 ==> ancestors(
                t.parent,
                pid,
                MAX_HOPS as nat,
            ).contains(#[trigger] chain_of(t.parent, pid)[i]) && t.parent.contains_key(
                chain_of(t.parent, pid)[i],
            ),
        forall|i: int|
            0 <= i < chain_of(t.parent, pid).len() - 1 ==> t.parent.contains_key(
                #[trigger] chain_of(t.parent, pid)[i + 1],
            ) && t.parent[chain_of(t.parent, pid)[i + 1]] == chain_of(t.parent, pid)[i],
{
    let m = t.parent;
    let l = lineage(m, pid, MAX_HOPS as nat);
    let a = ancestors(m, pid, MAX_HOPS as nat);
    let up = seq![pid] + l;
    let c = chain_of(m, pid);
    lemma_lineage_walks_up(m, pid, MAX_HOPS as nat);
    assert(c == up.reverse());
    assert(c.len() == up.len());
    assert(c.last() == up[0]);
    assert forall|i: int| 0 <= i < c.len() - 1 implies a.contains(#[trigger] c[i]) && m.contains_key(
        c[i],
    ) by {
        let k = up.len() - 1 - i;
        assert(c[i] == up[k]);
        assert(up[k] == l[k - 1]);
        assert(a[k - 1] == l[k - 1]);
    }
    assert forall|i: int| 0 <= i < c.len() - 1 implies m.contains_key(#[trigger] c[i + 1]) && m[c[i
        + 1]] == c[i] by {
        let k = up.len() - 2 - i;
        assert(c[i + 1] == up[k]);
        assert(c[i] == up[k + 1]);
        if k == 0 {
            assert(up[1] == l[0]);
        } else {
            assert(up[k] == l[k - 1]);
            assert(up[k + 1] == l[k]);
        }
    }
}


/// The walk up from `pid` through its first `n` ancestors: each step goes
/// to the recorded parent, and a walk cut short before `n` steps ends at a
/// process with no recorded parent.
proof fn lemma_ancestors_walk(parent: Map<u32, u32>, pid: u32, n: nat)
    ensures
        ancestors(parent, pid, n).len() <= n,
        forall|k: int|
            0 <= k < (seq![pid] + ancestors(parent, pid, n)).len() - 1 ==> parent.contains_key(
                #[trigger] (seq![pid] + ancestors(parent, pid, n))[k],
            ) && (seq![pid] + ancestors(parent, pid, n))[k + 1] == parent[(seq![pid] + ancestors(
                parent,
                pid,
                n,
            ))[k]],
        ancestors(parent, pid, n).len() < n ==> !parent.contains_key(
            (seq![pid] + ancestors(parent, pid, n)).last(),
        ),
    decreases n,
{
    let w = seq![pid] + ancestors(parent, pid, n);
    if n > 0 && parent.contains_key(pid) {
        let p = parent[pid];
        lemma_ancestors_walk(parent, p, (n - 1) as nat);
        let w1 = seq![p] + ancestors(parent, p, (n - 1) as nat);
        assert(w =~= seq![pid] + w1);
        assert forall|k: int| 0 <= k < w.len() - 1 implies parent.contains_key(#[trigger] w[k])
            && w[k + 1] == parent[w[k]] by {
            if k > 0 {
                assert(w[k] == w1[k - 1]);
                assert(w[k + 1] == w1[k]);
            }
        }
        assert(w.last() == w1.last());
    }
}

/// Along a walk up the tree that ends outside it, a process that occurs
/// twice would make the walk repeat itself from there on.
proof fn lemma_walk_repeats(parent: Map<u32, u32>, w: Seq<u32>, i: int, j: int, d: int)
    requires
        forall|k: int| 0 <= k < w.len() - 1 ==> parent.contains_key(#[trigger] w[k]) && w[k + 1]
            == parent[w[k]],
        0 <= i < j,
        0 <= d,
        j + d < w.len(),
        w[i] == w[j],
    ensures
        w[i + d] == w[j + d],
    decreases d,
{
    if d > 0 {
        lemma_walk_repeats(parent, w, i, j, d - 1);
        assert(parent.contains_key(w[i + d - 1]));
        assert(parent.contains_key(w[j + d - 1]));
    }
}

/// A walk up the tree that ends at a process with no recorded parent never
/// visits a process twice.
proof fn lemma_walk_no_repeats(parent: Map<u32, u32>, w: Seq<u32>)
    requires
        w.len() >= 1,
        forall|k: int| 0 <= k < w.len() - 1 ==> parent.contains_key(#[trigger] w[k]) && w[k + 1]
            == parent[w[k]],
        !parent.contains_key(w.last()),
    ensures
        w.no_duplicates(),
{
    assert forall|i: int, j: int| 0 <= i < w.len() && 0 <= j < w.len() && i != j implies w[i]
        != w[j] by {
        if w[i] == w[j] {
            let (a, b) = if i < j { (i, j) } else { (j, i) };
            let d = w.len() - 1 - b;
            lemma_walk_repeats(parent, w, a, b, d);
            assert(parent.contains_key(w[a + d]));
        }
    }
}

/// Acyclic chains: when the walk up from `pid` reaches a process with no
/// recorded parent within the first 64 parent links (so no cycle is met on
/// the way), the chain of `pid` names no process twice.
pub proof fn law_chain_without_cycle_has_no_repeats(t: TreeView, pid: u32)
    requires
        ancestors(t.parent, pid, MAX_HOPS as nat).len() < MAX_HOPS,
    ensures
        chain_of(t.parent, pid).no_duplicates(),
{
    let m = t.parent;
    let a = ancestors(m, pid, MAX_HOPS as nat);
    let l = lineage(m, pid, MAX_HOPS as nat);
    let w = seq![pid] + a;
    let up = seq![pid] + l;
    lemma_ancestors_walk(m, pid, MAX_HOPS as nat);
    lemma_walk_no_repeats(m, w);
    lemma_lineage_walks_up(m, pid, MAX_HOPS as nat);
    assert forall|k: int| 0 <= k < up.len() implies #[trigger] up[k] == w[k] by {
        if k > 0 {
            assert(up[k] == l[k - 1]);
            assert(w[k] == a[k - 1]);
        }
    }
    let c = chain_of(m, pid);
    assert(c == up.reverse());
    assert forall|i: int, j: int| 0 <= i < c.len() && 0 <= j < c.len() && i != j implies c[i]
        != c[j] by {
        assert(c[i] == up[up.len() - 1 - i]);
        assert(c[j] == up[up.len() - 1 - j]);
        assert(up[up.len() - 1 - i] == w[up.len() - 1 - i]);
        assert(up[up.len() - 1 - j] == w[up.len() - 1 - j]);
    }
}

} // verus!
