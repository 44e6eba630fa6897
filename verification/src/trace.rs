//! Flattening of hierarchical call traces.
//!
//! A node's call-tree tracer reports the execution of a transaction as a tree
//! of call frames. This module reduces such a tree to a flat mapping from
//! destination address to calldata: one entry per distinct non-creation
//! destination address, the calldata being that of the last frame for the
//! address in pre-order (parent before children, children left to right).

use vstd::prelude::*;

verus! {

/// A 160-bit account address, split into three big-endian words:
/// `hi` holds bytes 0..4, `mid` bytes 4..12, `lo` bytes 12..20.
#[derive(Clone, Copy, Debug, PartialEq, Eq, Structural)]
pub struct Address {
    pub hi: u32,
    pub mid: u64,
    pub lo: u64,
}

impl Address {
    /// Builds an address from its three big-endian words.
    pub fn new(hi: u32, mid: u64, lo: u64) -> (r: Address)
        ensures
            r == (Address { hi, mid, lo }),
    {
        Address { hi, mid, lo }
    }
}

/// One node of a transaction's execution call-tree: one contract call and the
/// calls it made, in order. A frame without a destination address is a
/// contract-creation call.
pub struct CallFrame {
    /// Destination of the call; `None` for a contract-creation call.
    pub to: Option<Address>,
    /// The byte payload sent with the call.
    pub input: Vec<u8>,
    /// The calls this call made, in the order they happened.
    pub calls: Vec<CallFrame>,
}

/// The pre-order sequence of (destination, calldata) pairs of a call-tree:
/// the frame's own pair first (creation frames contribute none), then those
/// of its children, left to right.
pub open spec fn preorder_calls(frame: CallFrame) -> Seq<(Address, Seq<u8>)>
    decreases frame, 0int,
{
    let rest = preorder_calls_from(frame.calls@, 0);
    match frame.to {
        Some(a) => seq![(a, frame.input@)] + rest,
        None => rest,
    }
}

/// The concatenation of `preorder_calls` over `frames[i..]`.
pub open spec fn preorder_calls_from(frames: Seq<CallFrame>, i: int) -> Seq<(Address, Seq<u8>)>
    decreases frames, frames.len() - i,
{
    if 0 <= i < frames.len() {
        preorder_calls(frames[i]) + preorder_calls_from(frames, i + 1)
    } else {
        Seq::empty()
    }
}

/// The map after writing every pair of `entries` into `m`, left to right:
/// a later pair with the same address overwrites an earlier one.
pub open spec fn insert_all(
    m: Map<Address, Seq<u8>>,
    entries: Seq<(Address, Seq<u8>)>,
) -> Map<Address, Seq<u8>>
    decreases entries.len(),
{
    if entries.len() == 0 {
        m
    } else {
        insert_all(m.insert(entries[0].0, entries[0].1), entries.drop_first())
    }
}

/// The mapping that a sequence of (address, calldata) entries stands for,
/// each entry read left to right.
pub open spec fn map_of(entries: Seq<(Address, Vec<u8>)>) -> Map<Address, Seq<u8>>
    decreases entries.len(),
{
    if entries.len() == 0 {
        Map::empty()
    } else {
        map_of(entries.drop_last()).insert(entries.last().0, entries.last().1@)
    }
}

/// A flattened trace: a mapping from destination address to calldata.
/// Keys are unique; insertion order carries no meaning.
#[derive(Debug)]
pub struct FlatTrace {
    entries: Vec<(Address, Vec<u8>)>,
}

impl View for FlatTrace {
    type V = Map<Address, Seq<u8>>;

    closed spec fn view(&self) -> Map<Address, Seq<u8>> {
        map_of(self.entries@)
    }
}

impl FlatTrace {
    /// No two entries share an address.
    pub closed spec fn wf(&self) -> bool {
        forall|i: int, j: int|
            0 <= i < j < self.entries@.len() ==> self.entries@[i].0 != self.entries@[j].0
    }

    /// An address is in the mapping exactly when some entry holds it, and the
    /// mapping then gives that entry's calldata.
    proof fn lemma_key_lookup(entries: Seq<(Address, Vec<u8>)>, a: Address)
        ensures
            map_of(entries).contains_key(a) <==> exists|i: int|
                0 <= i < entries.len() && entries[i].0 == a,
            forall|i: int|
                0 <= i < entries.len() && entries[i].0 == a && (forall|j: int|
                    i < j < entries.len() ==> entries[j].0 != a) ==> map_of(entries)[a]
                    == entries[i].1@,
        decreases entries.len(),
    {
        if entries.len() > 0 {
            Self::lemma_key_lookup(entries.drop_last(), a);
            assert forall|i: int|
                0 <= i < entries.len() && entries[i].0 == a implies map_of(
                entries,
            ).contains_key(a) by {
                if i < entries.len() - 1 {
                    assert(entries.drop_last()[i].0 == a);
                }
            }
            assert forall|i: int|
                0 <= i < entries.len() && entries[i].0 == a && (forall|j: int|
                    i < j < entries.len() ==> entries[j].0 != a) implies map_of(entries)[a]
                == entries[i].1@ by {
                if i < entries.len() - 1 {
                    assert(entries.drop_last()[i].0 == a);
                    assert(forall|j: int|
                        i < j < entries.drop_last().len() ==> entries.drop_last()[j].0 != a);
                }
            }
        }
    }

    /// Unique keys give the mapping one entry per list entry.
    proof fn lemma_dom_len(entries: Seq<(Address, Vec<u8>)>)
        requires
            forall|i: int, j: int| 0 <= i < j < entries.len() ==> entries[i].0 != entries[j].0,
        ensures
            map_of(entries).dom().finite(),
            map_of(entries).dom().len() == entries.len(),
        decreases entries.len(),
    {
        if entries.len() > 0 {
            let prefix = entries.drop_last();
            Self::lemma_dom_len(prefix);
            Self::lemma_key_lookup(prefix, entries.last().0);
            assert(forall|i: int| 0 <= i < prefix.len() ==> prefix[i].0 != entries.last().0);
            assert(!map_of(prefix).contains_key(entries.last().0));
        }
    }

    /// An empty mapping.
    pub fn new() -> (r: FlatTrace)
        ensures
            r.wf(),
            r@ == Map::<Address, Seq<u8>>::empty(),
    {
        FlatTrace { entries: Vec::new() }
    }

    /// Writes calldata for an address, overwriting what an earlier write left.
    pub fn insert(&mut self, addr: Address, data: Vec<u8>)
        requires
            old(self).wf(),
        ensures
            final(self).wf(),
            final(self)@ == old(self)@.insert(addr, data@),
    {
        let n = self.entries.len();
        for k in 0..n
            invariant
                self.wf(),
                *self == *old(self),
                n == self.entries@.len(),
                forall|i: int| 0 <= i < k ==> self.entries@[i].0 != addr,
        {
            if self.entries[k].0 == addr {
                proof {
                    let e = self.entries@;
                    let upd = e.update(k as int, (addr, data));
                    Self::lemma_update_found(e, k as int, addr, data);
                    assert forall|i: int, j: int| 0 <= i < j < upd.len() implies upd[i].0
                        != upd[j].0 by {
                        assert(e[i].0 != e[j].0);
                    }
                }
                self.entries.set(k, (addr, data));
                return ;
            }
        }
        proof {
            let e = self.entries@;
            let pushed = e.push((addr, data));
            assert(pushed.drop_last() =~= e);
            assert forall|i: int, j: int| 0 <= i < j < pushed.len() implies pushed[i].0
                != pushed[j].0 by {
                if j < e.len() {
                    assert(e[i].0 != e[j].0);
                } else {
                    assert(e[i].0 != addr);
                }
            }
        }
        self.entries.push((addr, data));
    }

    /// Overwriting the one entry that holds an address is insertion into the
    /// mapping.
    proof fn lemma_update_found(
        entries: Seq<(Address, Vec<u8>)>,
        k: int,
        addr: Address,
        data: Vec<u8>,
    )
        requires
            forall|i: int, j: int| 0 <= i < j < entries.len() ==> entries[i].0 != entries[j].0,
            0 <= k < entries.len(),
            entries[k].0 == addr,
        ensures
            map_of(entries.update(k, (addr, data))) == map_of(entries).insert(addr, data@),
        decreases entries.len(),
    {
        let updated = entries.update(k, (addr, data));
        if k == entries.len() - 1 {
            assert(updated.drop_last() =~= entries.drop_last());
            assert(map_of(updated) =~= map_of(entries).insert(addr, data@));
        } else {
            assert(updated.drop_last() =~= entries.drop_last().update(k, (addr, data)));
            Self::lemma_update_found(entries.drop_last(), k, addr, data);
            assert(entries.last().0 != addr);
            assert(map_of(updated) =~= map_of(entries).insert(addr, data@));
        }
    }

    /// The mapping holds an address exactly when an entry holds it, and then
    /// gives that entry's calldata, provided no later entry holds the address.
    proof fn lemma_lookup_at(entries: Seq<(Address, Vec<u8>)>, i: int, a: Address)
        requires
            0 <= i < entries.len(),
            entries[i].0 == a,
            forall|j: int| i < j < entries.len() ==> entries[j].0 != a,
        ensures
            map_of(entries).contains_key(a),
            map_of(entries)[a] == entries[i].1@,
        decreases entries.len(),
    {
        if i < entries.len() - 1 {
            assert(entries.drop_last()[i].0 == a);
            Self::lemma_lookup_at(entries.drop_last(), i, a);
        }
    }

    /// The calldata recorded for an address, if any.
    pub fn get(&self, addr: &Address) -> (r: Option<&Vec<u8>>)
        requires
            self.wf(),
        ensures
            match r {
                Some(d) => self@.contains_key(*addr) && d@ == self@[*addr],
                None => !self@.contains_key(*addr),
            },
    {
        let n = self.entries.len();
        for k in 0..n
            invariant
                self.wf(),
                n == self.entries@.len(),
                forall|i: int| 0 <= i < k ==> self.entries@[i].0 != *addr,
        {
            if self.entries[k].0 == *addr {
                proof {
                    let e = self.entries@;
                    assert forall|j: int| k < j < e.len() implies e[j].0 != *addr by {
                        assert(e[k as int].0 != e[j].0);
                    }
                    Self::lemma_lookup_at(e, k as int, *addr);
                }
                return Some(&self.entries[k].1);
            }
        }
        proof {
            Self::lemma_key_lookup(self.entries@, *addr);
        }
        None
    }

    /// How many addresses the mapping holds.
    pub fn len(&self) -> (r: usize)
        requires
            self.wf(),
        ensures
            r == self@.dom().len(),
    {
        proof {
            Self::lemma_dom_len(self.entries@);
        }
        self.entries.len()
    }
}

/// Writing the entries of a concatenation is writing those of each part in
/// turn.
pub proof fn lemma_insert_all_concat(
    m: Map<Address, Seq<u8>>,
    s1: Seq<(Address, Seq<u8>)>,
    s2: Seq<(Address, Seq<u8>)>,
)
    ensures
        insert_all(m, s1 + s2) == insert_all(insert_all(m, s1), s2),
    decreases s1.len(),
{
    if s1.len() == 0 {
        assert(s1 + s2 =~= s2);
    } else {
        assert((s1 + s2)[0] == s1[0]);
        assert((s1 + s2).drop_first() =~= s1.drop_first() + s2);
        lemma_insert_all_concat(m.insert(s1[0].0, s1[0].1), s1.drop_first(), s2);
    }
}

/// Records, for every frame of the tree that has a destination address, that
/// address with the frame's calldata: the frame itself first, then its
/// children left to right, a later write overwriting an earlier one.
pub fn flatten(frame: &CallFrame, flattened: &mut FlatTrace)
    requires
        old(flattened).wf(),
    ensures
        final(flattened).wf(),
        final(flattened)@ == insert_all(old(flattened)@, preorder_calls(*frame)),
    decreases *frame,
{
    let ghost target = insert_all(old(flattened)@, preorder_calls(*frame));
    if let Some(a) = frame.to {
        let data = frame.input.clone();
        proof {
            assert(data@ =~= frame.input@);
            let own = seq![(a, frame.input@)];
            let rest = preorder_calls_from(frame.calls@, 0);
            assert((own + rest)[0] == (a, frame.input@));
            assert((own + rest).drop_first() =~= rest);
        }
        flattened.insert(a, data);
    }
    let n = frame.calls.len();
    for i in 0..n
        invariant
            flattened.wf(),
            n == frame.calls@.len(),
            insert_all(flattened@, preorder_calls_from(frame.calls@, i as int)) == target,
    {
        proof {
            lemma_insert_all_concat(
                flattened@,
                preorder_calls(frame.calls@[i as int]),
                preorder_calls_from(frame.calls@, i + 1),
            );
        }
        flatten(&frame.calls[i], flattened);
    }
}

/// An address that no entry of the written sequence holds keeps exactly the
/// mapping it had before: present or absent as in `m`, with the same calldata.
pub proof fn lemma_untouched_address(
    m: Map<Address, Seq<u8>>,
    entries: Seq<(Address, Seq<u8>)>,
    a: Address,
)
    requires
        forall|j: int| 0 <= j < entries.len() ==> entries[j].0 != a,
    ensures
        insert_all(m, entries).contains_key(a) == m.contains_key(a),
        m.contains_key(a) ==> insert_all(m, entries)[a] == m[a],
    decreases entries.len(),
{
    if entries.len() > 0 {
        assert(forall|j: int|
            0 <= j < entries.drop_first().len() ==> entries.drop_first()[j] == entries[j + 1]);
        lemma_untouched_address(
            m.insert(entries[0].0, entries[0].1),
            entries.drop_first(),
            a,
        );
    }
}

/// Last write wins: after a sequence of entries is written into a map in
/// order, an address that some entry holds is in the mapping, and maps to the
/// calldata of the last entry that holds it. With the pre-order entry
/// sequence of a call-tree, this is the flattener's overwrite policy: of all
/// frames with one destination address, the last one visited in pre-order
/// supplies the calldata.
pub proof fn lemma_last_write_wins(
    m: Map<Address, Seq<u8>>,
    entries: Seq<(Address, Seq<u8>)>,
    a: Address,
    i: int,
)
    requires
        0 <= i < entries.len(),
        entries[i].0 == a,
        forall|j: int| i < j < entries.len() ==> entries[j].0 != a,
    ensures
        insert_all(m, entries).contains_key(a),
        insert_all(m, entries)[a] == entries[i].1,
    decreases entries.len(),
{
    let m1 = m.insert(entries[0].0, entries[0].1);
    let rest = entries.drop_first();
    assert(forall|j: int| 0 <= j < rest.len() ==> rest[j] == entries[j + 1]);
    if i == 0 {
        lemma_untouched_address(m1, rest, a);
    } else {
        lemma_last_write_wins(m1, rest, a, i - 1);
    }
}

/// What a call-trace simulation request came back with.
pub enum TraceOutcome {
    /// The request failed: a timeout, a network error, or a response that
    /// could not be read as a trace at all.
    Failed,
    /// The request succeeded but returned something other than a call-tree.
    Unsupported,
    /// The request returned the call-tree of the transaction.
    CallTree(CallFrame),
}

/// Reduces the outcome of a call-trace simulation to the flattened mapping:
/// on a call-tree, the mapping of its destination addresses to calldata; on
/// any failure, no result, the uniform best-effort signal.
pub fn get_flattened_trace(outcome: TraceOutcome) -> (r: Option<FlatTrace>)
    ensures
        match outcome {
            TraceOutcome::CallTree(frame) => r matches Some(t) && t.wf() && t@ == insert_all(
                Map::empty(),
                preorder_calls(frame),
            ),
            _ => r is None,
        },
{
    match outcome {
        TraceOutcome::CallTree(frame) => {
            let mut flattened = FlatTrace::new();
            flatten(&frame, &mut flattened);
            Some(flattened)
        },
        _ => None,
    }
}

} // verus!

