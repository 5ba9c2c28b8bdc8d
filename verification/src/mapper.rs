//! The offset-mapped four-level page-table walker and mapper.
//!
//! The whole physical address space is mapped at a fixed virtual offset, so
//! the mapper can read and write page tables through plain physical
//! addresses. The structured view of those tables — a finite map from the
//! physical address of a table to its 512 entry words — is the single
//! point at which raw frames are reinterpreted as page tables; every
//! table the mapper touches goes through it.

use vstd::prelude::*;

use std::collections::HashMap;

use crate::address::{
    l1_index_of, l2_index_of, l3_index_of, l4_index_of, PhysicalAddress, VirtualAddress,
};
use crate::frame_allocator::{frame_seq, FrameAllocator};
use crate::paging::{
    entry_address, entry_huge, entry_present, Page, PageFrame, PageFrameInner, PageInner,
    PageTable, PageTableEntry, PageTableEntryFlags, PageTableIndex, PageTableLevel, Size1GiB,
    Size2MiB, Size4KiB, GIANT_PAGE_SIZE, HUGE_PAGE_SIZE, NORMAL_PAGE_SIZE,
};

verus! {

broadcast use vstd::std_specs::hash::group_hash_axioms;

/// The structured view of physical memory that holds page tables: each
/// table's physical base address maps to its 512 raw entry words.
pub type TableView = Map<u64, Seq<u64>>;

/// The zero word of a cleared slot is neither present nor huge.
proof fn lemma_zero_word()
    ensures
        !entry_present(0u64),
        !entry_huge(0u64),
{
    assert(0u64 & 0x1 != 0x1 && 0u64 & 0x80 != 0x80) by (bit_vector);
}

/// An attempt to install a mapping failed.
#[derive(Debug, Clone, Copy, PartialEq, Eq, Structural)]
pub enum MappingError {
    /// Page and frame have different size classes.
    InvalidPageFrameMapping,
    /// The terminal entry for the page already carries data; mapping it
    /// again would silently alias the old translation.
    PageTableEntryAlreadyUsed,
    /// The frame allocator ran out of frames for an intermediate table.
    FrameAllocationFailed,
}

/// `t` is a known table of the view: present with all 512 entries.
pub open spec fn table_ok(m: TableView, t: u64) -> bool {
    m.dom().contains(t) && m[t].len() == 512
}

/// No entry of `s` is both present and huge.
pub open spec fn no_present_huge(s: Seq<u64>) -> bool {
    forall|i: int| 0 <= i < s.len() ==> !(entry_present(#[trigger] s[i]) && entry_huge(s[i]))
}

/// A well-formed level-1 table: the hardware never marks its entries huge.
#[verifier::opaque]
pub open spec fn wf1(m: TableView, t: u64) -> bool {
    table_ok(m, t) && no_present_huge(m[t])
}

/// A well-formed level-2 table: every present non-huge entry points to a
/// well-formed level-1 table.
#[verifier::opaque]
pub open spec fn wf2(m: TableView, t: u64) -> bool {
    table_ok(m, t) && forall|i: int|
        0 <= i < 512 && entry_present(#[trigger] m[t][i]) && !entry_huge(m[t][i]) ==> wf1(
            m,
            entry_address(m[t][i]),
        )
}

/// A well-formed level-3 table: every present non-huge entry points to a
/// well-formed level-2 table.
#[verifier::opaque]
pub open spec fn wf3(m: TableView, t: u64) -> bool {
    table_ok(m, t) && forall|i: int|
        0 <= i < 512 && entry_present(#[trigger] m[t][i]) && !entry_huge(m[t][i]) ==> wf2(
            m,
            entry_address(m[t][i]),
        )
}

/// A well-formed level-4 (root) table: no huge entries, and every present
/// entry points to a well-formed level-3 table.
#[verifier::opaque]
pub open spec fn wf4(m: TableView, t: u64) -> bool {
    table_ok(m, t) && no_present_huge(m[t]) && forall|i: int|
        0 <= i < 512 && entry_present(#[trigger] m[t][i]) ==> wf3(m, entry_address(m[t][i]))
}

/// Entry `i` of table `t` is a live link to a further table at `a`:
/// present, not huge, carrying the address `a`.
pub open spec fn link_at(m: TableView, t: u64, i: int, a: u64) -> bool {
    &&& m.dom().contains(t)
    &&& 0 <= i < m[t].len()
    &&& entry_present(m[t][i])
    &&& !entry_huge(m[t][i])
    &&& entry_address(m[t][i]) == a
}

/// `a` is a level-3 table: the root links to it.
#[verifier::opaque]
pub open spec fn at3(m: TableView, root: u64, a: u64) -> bool {
    exists|i: int| link_at(m, root, i, a)
}

/// `a` is a level-2 table: some level-3 table links to it.
#[verifier::opaque]
pub open spec fn at2(m: TableView, root: u64, a: u64) -> bool {
    exists|t: u64, i: int| #[trigger] link_at(m, t, i, a) && at3(m, root, t)
}

/// `a` is a level-1 table: some level-2 table links to it.
#[verifier::opaque]
pub open spec fn at1(m: TableView, root: u64, a: u64) -> bool {
    exists|t: u64, i: int| #[trigger] link_at(m, t, i, a) && at2(m, root, t)
}

/// The four levels of the table tree never share a table: no address
/// serves as a table of two different levels, and none of them is the
/// root. Writing a terminal entry into a table of one level can therefore
/// not corrupt a table of another.
#[verifier::opaque]
pub open spec fn levels_ok(m: TableView, root: u64) -> bool {
    &&& forall|a: u64| #[trigger]
        at3(m, root, a) ==> a != root && !at2(m, root, a) && !at1(m, root, a)
    &&& forall|a: u64| #[trigger] at2(m, root, a) ==> a != root && !at1(m, root, a)
    &&& forall|a: u64| #[trigger] at1(m, root, a) ==> a != root
}

/// The result of the hardware's four-level translation walk for `va`,
/// starting at the root table: `None` when the walk meets a missing
/// table or a non-present entry, otherwise the physical address. A huge
/// entry met at the level-3 table maps a 2 MiB frame, one met at the
/// level-2 table a 1 GiB frame; the frame base is the entry address
/// aligned down to the frame size.
#[verifier::opaque]
pub open spec fn walk(m: TableView, root: u64, va: u64) -> Option<int> {
    if !table_ok(m, root) {
        None
    } else {
        let e4 = m[root][l4_index_of(va) as int];
        if !entry_present(e4) {
            None
        } else {
            let t3 = entry_address(e4);
            if !table_ok(m, t3) {
                None
            } else {
                let e3 = m[t3][l3_index_of(va) as int];
                if !entry_present(e3) {
                    None
                } else if entry_huge(e3) {
                    Some(entry_address(e3) - entry_address(e3) % HUGE_PAGE_SIZE + va
                        % HUGE_PAGE_SIZE)
                } else {
                    let t2 = entry_address(e3);
                    if !table_ok(m, t2) {
                        None
                    } else {
                        let e2 = m[t2][l2_index_of(va) as int];
                        if !entry_present(e2) {
                            None
                        } else if entry_huge(e2) {
                            Some(entry_address(e2) - entry_address(e2) % GIANT_PAGE_SIZE + va
                                % GIANT_PAGE_SIZE)
                        } else {
                            let t1 = entry_address(e2);
                            if !table_ok(m, t1) {
                                None
                            } else {
                                let e1 = m[t1][l1_index_of(va) as int];
                                if !entry_present(e1) {
                                    None
                                } else {
                                    Some(entry_address(e1) + va % NORMAL_PAGE_SIZE)
                                }
                            }
                        }
                    }
                }
            }
        }
    }
}

/// `m2` extends `m1` without disturbing it: every table of `m1` is still
/// there with the same length, and an entry only changed where it was not
/// present before. Every translation that succeeded in `m1` therefore
/// still succeeds, unchanged, in `m2` (see [`lemma_walk_monotone`]).
#[verifier::opaque]
pub open spec fn extends_nonpresent(m1: TableView, m2: TableView) -> bool {
    &&& forall|t: u64| m1.dom().contains(t) ==> m2.dom().contains(t)
    &&& forall|t: u64|
        m1.dom().contains(t) ==> (#[trigger] m2[t]).len() == m1[t].len()
    &&& forall|t: u64, i: int|
        m1.dom().contains(t) && 0 <= i < m1[t].len() && entry_present(#[trigger] m1[t][i])
            ==> m2[t][i] == m1[t][i]
}

/// `extends_nonpresent` composes.
pub proof fn lemma_extends_trans(m1: TableView, m2: TableView, m3: TableView)
    requires
        extends_nonpresent(m1, m2),
        extends_nonpresent(m2, m3),
    ensures
        extends_nonpresent(m1, m3),
{
    reveal(extends_nonpresent);
}

/// A successful translation survives any extension that only touches
/// non-present entries: installing new mappings never changes an existing
/// one.
pub proof fn lemma_walk_monotone(m1: TableView, m2: TableView, root: u64, va: u64)
    requires
        extends_nonpresent(m1, m2),
        walk(m1, root, va) is Some,
    ensures
        walk(m2, root, va) == walk(m1, root, va),
{
    reveal(walk);
    reveal(extends_nonpresent);
    let e4 = m1[root][l4_index_of(va) as int];
    let t3 = entry_address(e4);
    let e3 = m1[t3][l3_index_of(va) as int];
    assert(m2[root][l4_index_of(va) as int] == e4);
    assert(m2[t3][l3_index_of(va) as int] == e3);
    if !entry_huge(e3) {
        let t2 = entry_address(e3);
        let e2 = m1[t2][l2_index_of(va) as int];
        assert(m2[t2][l2_index_of(va) as int] == e2);
        if !entry_huge(e2) {
            let t1 = entry_address(e2);
            let e1 = m1[t1][l1_index_of(va) as int];
            assert(m2[t1][l1_index_of(va) as int] == e1);
        }
    }
}


/// A sequence of 512 zeroed entry words: the contents of a freshly
/// cleared table.
pub open spec fn zero_table() -> Seq<u64> {
    Seq::new(512, |i: int| 0u64)
}

/// Every table the level sets name is in the view and well formed at its
/// level.
proof fn lemma_atsets_wf(m: TableView, root: u64)
    requires
        wf4(m, root),
    ensures
        forall|a: u64| #[trigger] at3(m, root, a) ==> wf3(m, a),
        forall|a: u64| #[trigger] at2(m, root, a) ==> wf2(m, a),
        forall|a: u64| #[trigger] at1(m, root, a) ==> wf1(m, a),
{
    reveal(wf4);
    reveal(wf3);
    reveal(wf2);
    reveal(wf1);
    reveal(at3);
    reveal(at2);
    reveal(at1);
    assert forall|a: u64| #[trigger] at3(m, root, a) implies wf3(m, a) by {
        let i = choose|i: int| link_at(m, root, i, a);
        assert(entry_present(m[root][i]));
    }
    assert forall|a: u64| #[trigger] at2(m, root, a) implies wf2(m, a) by {
        let (t, i) = choose|t: u64, i: int| #[trigger] link_at(m, t, i, a) && at3(m, root, t);
        assert(wf3(m, t));
        assert(entry_present(m[t][i]) && !entry_huge(m[t][i]));
    }
    assert forall|a: u64| #[trigger] at1(m, root, a) implies wf1(m, a) by {
        let (t, i) = choose|t: u64, i: int| #[trigger] link_at(m, t, i, a) && at2(m, root, t);
        let (t2, i2) = choose|t2: u64, i2: int| #[trigger] link_at(m, t2, i2, t) && at3(
            m,
            root,
            t2,
        );
        assert(wf3(m, t2));
        assert(wf2(m, t));
    }
}

/// Adding a fresh zeroed table leaves the tree, the level sets, and every
/// existing translation untouched.
proof fn lemma_insert_fresh(m: TableView, m2: TableView, root: u64, f: u64)
    requires
        wf4(m, root),
        !m.dom().contains(f),
        m2 == m.insert(f, zero_table()),
    ensures
        wf4(m2, root),
        extends_nonpresent(m, m2),
        forall|a: u64| #[trigger] at3(m2, root, a) <==> at3(m, root, a),
        forall|a: u64| #[trigger] at2(m2, root, a) <==> at2(m, root, a),
        forall|a: u64| #[trigger] at1(m2, root, a) <==> at1(m, root, a),
        !at3(m, root, f) && !at2(m, root, f) && !at1(m, root, f) && f != root,
        table_ok(m2, f),
        forall|i: int| 0 <= i < 512 ==> m2[f][i] == 0u64,
        levels_ok(m, root) ==> levels_ok(m2, root),
{
    reveal(wf4);
    reveal(wf3);
    reveal(wf2);
    reveal(wf1);
    reveal(at3);
    reveal(at2);
    reveal(at1);
    reveal(levels_ok);
    reveal(extends_nonpresent);
    lemma_zero_word();
    lemma_atsets_wf(m, root);
    assert(forall|t: u64| m.dom().contains(t) ==> m2[t] == m[t]);
    // No link can start from the zeroed table, and none can end at `f`
    // because every link target of the old view is one of its tables.
    assert forall|t: u64, i: int, a: u64| #[trigger] link_at(m2, t, i, a) implies link_at(
        m,
        t,
        i,
        a,
    ) by {
        if t == f {
            assert(m2[f][i] == 0u64);
        }
    }
    assert(forall|t: u64, i: int, a: u64| link_at(m, t, i, a) ==> link_at(m2, t, i, a));
    assert forall|a: u64| #[trigger] at3(m2, root, a) implies at3(m, root, a) by {
        let i = choose|i: int| link_at(m2, root, i, a);
        assert(link_at(m, root, i, a));
    }
    assert forall|a: u64| #[trigger] at3(m, root, a) implies at3(m2, root, a) by {
        let i = choose|i: int| link_at(m, root, i, a);
        assert(link_at(m2, root, i, a));
    }
    assert forall|a: u64| #[trigger] at2(m2, root, a) implies at2(m, root, a) by {
        let (t, i) = choose|t: u64, i: int| #[trigger] link_at(m2, t, i, a) && at3(m2, root, t);
        assert(link_at(m, t, i, a) && at3(m, root, t));
    }
    assert forall|a: u64| #[trigger] at2(m, root, a) implies at2(m2, root, a) by {
        let (t, i) = choose|t: u64, i: int| #[trigger] link_at(m, t, i, a) && at3(m, root, t);
        assert(link_at(m2, t, i, a) && at3(m2, root, t));
    }
    assert forall|a: u64| #[trigger] at1(m2, root, a) implies at1(m, root, a) by {
        let (t, i) = choose|t: u64, i: int| #[trigger] link_at(m2, t, i, a) && at2(m2, root, t);
        assert(link_at(m, t, i, a) && at2(m, root, t));
    }
    assert forall|a: u64| #[trigger] at1(m, root, a) implies at1(m2, root, a) by {
        let (t, i) = choose|t: u64, i: int| #[trigger] link_at(m, t, i, a) && at2(m, root, t);
        assert(link_at(m2, t, i, a) && at2(m2, root, t));
    }
    if at3(m, root, f) {
        lemma_atsets_wf(m, root);
        assert(wf3(m, f));
        assert(false);
    }
    if at2(m, root, f) {
        assert(wf2(m, f));
        assert(false);
    }
    if at1(m, root, f) {
        assert(wf1(m, f));
        assert(false);
    }
    // Well-formedness: every table of the old view keeps its entries, and
    // the new table satisfies every level trivially.
    assert forall|t: u64| wf1(m, t) implies wf1(m2, t) by {}
    assert(wf1(m2, f) && wf2(m2, f) && wf3(m2, f));
    assert forall|t: u64| wf2(m, t) implies wf2(m2, t) by {
        assert forall|i: int|
            0 <= i < 512 && entry_present(#[trigger] m2[t][i]) && !entry_huge(m2[t][i]) implies wf1(
            m2,
            entry_address(m2[t][i]),
        ) by {
            assert(m2[t][i] == m[t][i]);
            assert(wf1(m, entry_address(m[t][i])));
        }
    }
    assert forall|t: u64| wf3(m, t) implies wf3(m2, t) by {
        assert forall|i: int|
            0 <= i < 512 && entry_present(#[trigger] m2[t][i]) && !entry_huge(m2[t][i]) implies wf2(
            m2,
            entry_address(m2[t][i]),
        ) by {
            assert(m2[t][i] == m[t][i]);
            assert(wf2(m, entry_address(m[t][i])));
        }
    }
    assert forall|i: int|
        0 <= i < 512 && entry_present(#[trigger] m2[root][i]) implies wf3(
        m2,
        entry_address(m2[root][i]),
    ) by {
        assert(m2[root][i] == m[root][i]);
        assert(wf3(m, entry_address(m[root][i])));
    }
}

/// Writing a link (present, not huge, pointing at a table that is still
/// all zero) over a non-present entry keeps the whole tree well formed: a
/// zeroed table is well formed at every level, so no matter where the
/// parent sits, every obligation is met.
proof fn lemma_wf_after_link(m: TableView, m2: TableView, root: u64, parent: u64, idx: int, w: u64)
    requires
        wf4(m, root),
        table_ok(m, parent),
        0 <= idx < 512,
        !entry_present(m[parent][idx]),
        m2 == m.insert(parent, m[parent].update(idx, w)),
        !entry_huge(w),
        entry_present(w) ==> table_ok(m, entry_address(w)) && (forall|i: int|
            0 <= i < 512 ==> m[entry_address(w)][i] == 0u64),
    ensures
        wf4(m2, root),
        extends_nonpresent(m, m2),
{
    reveal(wf4);
    reveal(wf3);
    reveal(wf2);
    reveal(wf1);
    reveal(extends_nonpresent);
    let c = entry_address(w);
    lemma_zero_word();
    assert(forall|t: u64| m.dom().contains(t) && t != parent ==> m2[t] == m[t]);
    assert(m2[parent].len() == 512);
    assert(forall|i: int| 0 <= i < 512 && i != idx ==> m2[parent][i] == m[parent][i]);
    assert(m2[parent][idx] == w);
    if entry_present(w) {
        assert(c != parent || !table_ok(m, c) || m[c][idx] == 0u64);
        assert(wf1(m2, c) && wf2(m2, c) && wf3(m2, c)) by {
            assert(forall|i: int| 0 <= i < 512 ==> m2[c][i] == m[c][i] || (c == parent && i
                == idx));
            assert(forall|i: int|
                0 <= i < 512 && !(c == parent && i == idx) ==> !entry_present(
                    #[trigger] m2[c][i],
                ));
        }
    }
    assert forall|t: u64| wf1(m, t) implies wf1(m2, t) by {
        assert forall|i: int| 0 <= i < 512 implies !(entry_present(#[trigger] m2[t][i])
            && entry_huge(m2[t][i])) by {
            if t == parent && i == idx {
            } else {
                assert(m2[t][i] == m[t][i]);
            }
        }
    }
    assert forall|t: u64| wf2(m, t) implies wf2(m2, t) by {
        assert forall|i: int|
            0 <= i < 512 && entry_present(#[trigger] m2[t][i]) && !entry_huge(m2[t][i]) implies wf1(
            m2,
            entry_address(m2[t][i]),
        ) by {
            if t == parent && i == idx {
                assert(entry_present(w));
            } else {
                assert(m2[t][i] == m[t][i]);
                assert(wf1(m, entry_address(m[t][i])));
            }
        }
    }
    assert forall|t: u64| wf3(m, t) implies wf3(m2, t) by {
        assert forall|i: int|
            0 <= i < 512 && entry_present(#[trigger] m2[t][i]) && !entry_huge(m2[t][i]) implies wf2(
            m2,
            entry_address(m2[t][i]),
        ) by {
            if t == parent && i == idx {
                assert(entry_present(w));
            } else {
                assert(m2[t][i] == m[t][i]);
                assert(wf2(m, entry_address(m[t][i])));
            }
        }
    }
    assert(table_ok(m2, root) && no_present_huge(m2[root])) by {
        assert forall|i: int| 0 <= i < 512 implies !(entry_present(#[trigger] m2[root][i])
            && entry_huge(m2[root][i])) by {
            if root == parent && i == idx {
            } else {
                assert(m2[root][i] == m[root][i]);
            }
        }
    }
    assert forall|i: int| 0 <= i < 512 && entry_present(#[trigger] m2[root][i]) implies wf3(
        m2,
        entry_address(m2[root][i]),
    ) by {
        if root == parent && i == idx {
            assert(entry_present(w));
        } else {
            assert(m2[root][i] == m[root][i]);
            assert(wf3(m, entry_address(m[root][i])));
        }
    }
}


/// How a link write moves the level sets: writing a link from a parent at
/// position `pos` (4 for the root, 3 and 2 for those level sets, 0 for a
/// table no level set names) adds the pointed-to table to the set one
/// level below — and nothing else changes, so the levels stay disjoint.
proof fn lemma_atsets_after_link(
    m: TableView,
    m2: TableView,
    root: u64,
    parent: u64,
    idx: int,
    w: u64,
    pos: int,
)
    requires
        wf4(m, root),
        levels_ok(m, root),
        table_ok(m, parent),
        0 <= idx < 512,
        !entry_present(m[parent][idx]),
        m2 == m.insert(parent, m[parent].update(idx, w)),
        !entry_huge(w),
        entry_present(w) ==> {
            let c = entry_address(w);
            &&& table_ok(m, c)
            &&& (forall|i: int| 0 <= i < 512 ==> m[c][i] == 0u64)
            &&& c != parent
            &&& c != root
            &&& !at3(m, root, c)
            &&& !at2(m, root, c)
            &&& !at1(m, root, c)
        },
        pos == 4 ==> parent == root,
        pos == 3 ==> at3(m, root, parent),
        pos == 2 ==> at2(m, root, parent),
        pos == 0 ==> parent != root && !at3(m, root, parent) && !at2(m, root, parent),
        pos == 0 || pos == 2 || pos == 3 || pos == 4,
    ensures
        levels_ok(m2, root),
        forall|a: u64| #[trigger]
            at3(m2, root, a) <==> at3(m, root, a) || (pos == 4 && entry_present(w) && a
                == entry_address(w)),
        forall|a: u64| #[trigger]
            at2(m2, root, a) <==> at2(m, root, a) || (pos == 3 && entry_present(w) && a
                == entry_address(w)),
        forall|a: u64| #[trigger]
            at1(m2, root, a) <==> at1(m, root, a) || (pos == 2 && entry_present(w) && a
                == entry_address(w)),
{
    reveal(at3);
    reveal(at2);
    reveal(at1);
    reveal(levels_ok);
    let c = entry_address(w);
    lemma_zero_word();
    assert(forall|t: u64| m.dom().contains(t) && t != parent ==> m2[t] == m[t]);
    assert(m2[parent].len() == m[parent].len());
    assert(forall|i: int| 0 <= i < m[parent].len() && i != idx ==> m2[parent][i]
        == m[parent][i]);
    assert(m2[parent][idx] == w);
    // A link of the new view is an old link or exactly the written one.
    assert forall|t: u64, i: int, a: u64| #[trigger] link_at(m2, t, i, a) implies link_at(
        m,
        t,
        i,
        a,
    ) || (t == parent && i == idx && entry_present(w) && a == c) by {}
    assert forall|t: u64, i: int, a: u64| #[trigger] link_at(m, t, i, a) implies link_at(
        m2,
        t,
        i,
        a,
    ) by {}
    if entry_present(w) {
        assert(forall|i: int| 0 <= i < 512 ==> m2[c][i] == 0u64);
    }
    // Level 3.
    assert forall|a: u64| #[trigger] at3(m2, root, a) implies at3(m, root, a) || (pos == 4
        && entry_present(w) && a == c) by {
        let i = choose|i: int| link_at(m2, root, i, a);
        if root == parent && i == idx {
            assert(entry_present(w) && a == c);
            if pos == 3 || pos == 2 {
                assert(false);
            }
            if pos == 0 {
                assert(false);
            }
        } else {
            assert(link_at(m, root, i, a));
        }
    }
    assert forall|a: u64|
        at3(m, root, a) || (pos == 4 && entry_present(w) && a == c) implies #[trigger] at3(
        m2,
        root,
        a,
    ) by {
        if at3(m, root, a) {
            let i = choose|i: int| link_at(m, root, i, a);
            assert(link_at(m2, root, i, a));
        } else {
            assert(link_at(m2, root, idx, c));
        }
    }
    // Level 2.
    assert forall|a: u64| #[trigger] at2(m2, root, a) implies at2(m, root, a) || (pos == 3
        && entry_present(w) && a == c) by {
        let (t, i) = choose|t: u64, i: int| #[trigger] link_at(m2, t, i, a) && at3(m2, root, t);
        if pos == 4 && entry_present(w) && t == c {
            assert(m2[c][i] == 0u64);
            assert(false);
        }
        assert(at3(m, root, t));
        if t == parent && i == idx {
            assert(entry_present(w) && a == c);
            assert(pos == 3);
        } else {
            assert(link_at(m, t, i, a));
        }
    }
    assert forall|a: u64|
        at2(m, root, a) || (pos == 3 && entry_present(w) && a == c) implies #[trigger] at2(
        m2,
        root,
        a,
    ) by {
        if at2(m, root, a) {
            let (t, i) = choose|t: u64, i: int| #[trigger] link_at(m, t, i, a) && at3(m, root, t);
            assert(link_at(m2, t, i, a) && at3(m2, root, t));
        } else {
            assert(link_at(m2, parent, idx, c) && at3(m2, root, parent));
        }
    }
    // Level 1.
    assert forall|a: u64| #[trigger] at1(m2, root, a) implies at1(m, root, a) || (pos == 2
        && entry_present(w) && a == c) by {
        let (t, i) = choose|t: u64, i: int| #[trigger] link_at(m2, t, i, a) && at2(m2, root, t);
        if pos == 3 && entry_present(w) && t == c {
            assert(m2[c][i] == 0u64);
            assert(false);
        }
        assert(at2(m, root, t));
        if t == parent && i == idx {
            assert(entry_present(w) && a == c);
            assert(pos == 2);
        } else {
            assert(link_at(m, t, i, a));
        }
    }
    assert forall|a: u64|
        at1(m, root, a) || (pos == 2 && entry_present(w) && a == c) implies #[trigger] at1(
        m2,
        root,
        a,
    ) by {
        if at1(m, root, a) {
            let (t, i) = choose|t: u64, i: int| #[trigger] link_at(m, t, i, a) && at2(m, root, t);
            assert(link_at(m2, t, i, a) && at2(m2, root, t));
        } else {
            assert(link_at(m2, parent, idx, c) && at2(m2, root, parent));
        }
    }
}


/// Writing a terminal entry (a frame mapping) over a non-present slot of
/// a table keeps the tree well formed and the level sets unchanged. The
/// level disjointness is what makes this safe: the written table serves no
/// other level, so no table of another level sees the new entry.
proof fn lemma_terminal_write(
    m: TableView,
    m2: TableView,
    root: u64,
    t: u64,
    idx: int,
    w: u64,
    tpos: int,
)
    requires
        wf4(m, root),
        levels_ok(m, root),
        table_ok(m, t),
        0 <= idx < 512,
        !entry_present(m[t][idx]),
        m2 == m.insert(t, m[t].update(idx, w)),
        tpos == 1 ==> at1(m, root, t) && !entry_huge(w),
        tpos == 3 ==> at3(m, root, t) && entry_huge(w),
        tpos == 2 ==> at2(m, root, t) && entry_huge(w),
        tpos == 0 ==> t != root && !at3(m, root, t) && !at2(m, root, t) && !at1(m, root, t),
        tpos == 0 || tpos == 1 || tpos == 2 || tpos == 3,
    ensures
        wf4(m2, root),
        levels_ok(m2, root),
        extends_nonpresent(m, m2),
        forall|a: u64| #[trigger] at3(m2, root, a) <==> at3(m, root, a),
        forall|a: u64| #[trigger] at2(m2, root, a) <==> at2(m, root, a),
        forall|a: u64| #[trigger] at1(m2, root, a) <==> at1(m, root, a),
{
    reveal(wf4);
    reveal(wf3);
    reveal(wf2);
    reveal(wf1);
    reveal(at3);
    reveal(at2);
    reveal(at1);
    reveal(levels_ok);
    reveal(extends_nonpresent);
    lemma_atsets_wf(m, root);
    assert(forall|t2: u64| m.dom().contains(t2) && t2 != t ==> m2[t2] == m[t2]);
    assert(m2[t].len() == m[t].len());
    assert(forall|i: int| 0 <= i < m[t].len() && i != idx ==> m2[t][i] == m[t][i]);
    assert(m2[t][idx] == w);
    assert(t != root);
    // The level sets do not move: the written slot is never a live link
    // out of a level-4, level-3 or level-2 table.
    assert forall|a: u64| #[trigger] at3(m2, root, a) implies at3(m, root, a) by {
        let i = choose|i: int| link_at(m2, root, i, a);
        assert(link_at(m, root, i, a));
    }
    assert forall|a: u64| #[trigger] at3(m, root, a) implies at3(m2, root, a) by {
        let i = choose|i: int| link_at(m, root, i, a);
        assert(link_at(m2, root, i, a));
    }
    assert forall|a: u64| #[trigger] at2(m2, root, a) implies at2(m, root, a) by {
        let (u, i) = choose|u: u64, i: int| #[trigger] link_at(m2, u, i, a) && at3(m2, root, u);
        assert(at3(m, root, u));
        if u == t && i == idx {
            assert(false);
        }
        assert(link_at(m, u, i, a));
    }
    assert forall|a: u64| #[trigger] at2(m, root, a) implies at2(m2, root, a) by {
        let (u, i) = choose|u: u64, i: int| #[trigger] link_at(m, u, i, a) && at3(m, root, u);
        assert(link_at(m2, u, i, a) && at3(m2, root, u));
    }
    assert forall|a: u64| #[trigger] at1(m2, root, a) implies at1(m, root, a) by {
        let (u, i) = choose|u: u64, i: int| #[trigger] link_at(m2, u, i, a) && at2(m2, root, u);
        assert(at2(m, root, u));
        if u == t && i == idx {
            assert(false);
        }
        assert(link_at(m, u, i, a));
    }
    assert forall|a: u64| #[trigger] at1(m, root, a) implies at1(m2, root, a) by {
        let (u, i) = choose|u: u64, i: int| #[trigger] link_at(m, u, i, a) && at2(m, root, u);
        assert(link_at(m2, u, i, a) && at2(m2, root, u));
    }
    // Well-formedness: walk the three levels below the root; at every
    // step the visited table is in a level set, so it is the written
    // table only where the written entry meets that level's obligations.
    assert(no_present_huge(m2[root]));
    assert forall|i: int| 0 <= i < 512 && entry_present(#[trigger] m2[root][i]) implies wf3(
        m2,
        entry_address(m2[root][i]),
    ) by {
        assert(m2[root][i] == m[root][i]);
        let u = entry_address(m[root][i]);
        assert(link_at(m, root, i, u));
        assert(at3(m, root, u));
        assert(wf3(m, u));
        assert forall|j: int|
            0 <= j < 512 && entry_present(#[trigger] m2[u][j]) && !entry_huge(m2[u][j]) implies wf2(
            m2,
            entry_address(m2[u][j]),
        ) by {
            if u == t && j == idx {
                assert(tpos == 3);
                assert(false);
            }
            assert(m2[u][j] == m[u][j]);
            let v = entry_address(m[u][j]);
            assert(link_at(m, u, j, v));
            assert(at2(m, root, v));
            assert(wf2(m, v));
            assert forall|k: int|
                0 <= k < 512 && entry_present(#[trigger] m2[v][k]) && !entry_huge(m2[v][k])
                implies wf1(m2, entry_address(m2[v][k])) by {
                if v == t && k == idx {
                    assert(tpos == 2);
                    assert(false);
                }
                assert(m2[v][k] == m[v][k]);
                let x = entry_address(m[v][k]);
                assert(link_at(m, v, k, x));
                assert(at1(m, root, x));
                assert(wf1(m, x));
                assert forall|l: int| 0 <= l < 512 implies !(entry_present(#[trigger] m2[x][l])
                    && entry_huge(m2[x][l])) by {
                    if x == t && l == idx {
                        assert(tpos == 1);
                    } else {
                        assert(m2[x][l] == m[x][l]);
                    }
                }
            }
        }
    }
}

/// Within an aligned 4 KiB page, every address shares all four table
/// indices with the page start, and its page offset is its distance from
/// the start.
proof fn lemma_same_indices_normal(s: u64, va: u64)
    requires
        s % 0x1000 == 0,
        s <= va < s + 0x1000,
    ensures
        l4_index_of(va) == l4_index_of(s),
        l3_index_of(va) == l3_index_of(s),
        l2_index_of(va) == l2_index_of(s),
        l1_index_of(va) == l1_index_of(s),
        va % 0x1000 == va - s,
{
    assert((s % 0x1000 == 0 && s <= va < s + 0x1000) ==> (va / 0x80_0000_0000) % 512 == (s
        / 0x80_0000_0000) % 512 && (va / 0x4000_0000) % 512 == (s / 0x4000_0000) % 512 && (va
        / 0x20_0000) % 512 == (s / 0x20_0000) % 512 && (va / 0x1000) % 512 == (s / 0x1000) % 512
        && va % 0x1000 == va - s) by (bit_vector);
}

/// Within an aligned 2 MiB page, every address shares the two upper table
/// indices with the page start, and its offset is its distance from the
/// start.
proof fn lemma_same_indices_huge(s: u64, va: u64)
    requires
        s % 0x20_0000 == 0,
        s <= va < s + 0x20_0000,
    ensures
        l4_index_of(va) == l4_index_of(s),
        l3_index_of(va) == l3_index_of(s),
        va % 0x20_0000 == va - s,
{
    assert((s % 0x20_0000 == 0 && s <= va < s + 0x20_0000) ==> (va / 0x80_0000_0000) % 512 == (s
        / 0x80_0000_0000) % 512 && (va / 0x4000_0000) % 512 == (s / 0x4000_0000) % 512 && va
        % 0x20_0000 == va - s) by (bit_vector);
}

/// Within the first 2 MiB window of an aligned 1 GiB page — the span of
/// virtual addresses that reach the page's single level-2 slot — every
/// address shares the three upper table indices with the page start, and
/// its offset into the giant page is its distance from the start.
proof fn lemma_same_indices_giant(s: u64, va: u64)
    requires
        s % 0x4000_0000 == 0,
        s <= va < s + 0x20_0000,
    ensures
        l4_index_of(va) == l4_index_of(s),
        l3_index_of(va) == l3_index_of(s),
        l2_index_of(va) == l2_index_of(s),
        va % 0x4000_0000 == va - s,
{
    assert((s % 0x4000_0000 == 0 && s <= va < s + 0x20_0000) ==> (va / 0x80_0000_0000) % 512
        == (s / 0x80_0000_0000) % 512 && (va / 0x4000_0000) % 512 == (s / 0x4000_0000) % 512 && (
    va / 0x20_0000) % 512 == (s / 0x20_0000) % 512 && va % 0x4000_0000 == va - s)
        by (bit_vector);
}

/// A complete four-level path whose terminal entry maps `fstart`
/// translates the whole 4 KiB page starting at `s` onto the frame at
/// `fstart`.
proof fn lemma_walk_range_normal(
    m: TableView,
    root: u64,
    t3: u64,
    t2: u64,
    t1: u64,
    s: u64,
    fstart: u64,
)
    requires
        s % 0x1000 == 0,
        table_ok(m, root),
        table_ok(m, t3),
        table_ok(m, t2),
        table_ok(m, t1),
        ({
            let e = m[root][l4_index_of(s) as int];
            entry_present(e) && !entry_huge(e) && entry_address(e) == t3
        }),
        ({
            let e = m[t3][l3_index_of(s) as int];
            entry_present(e) && !entry_huge(e) && entry_address(e) == t2
        }),
        ({
            let e = m[t2][l2_index_of(s) as int];
            entry_present(e) && !entry_huge(e) && entry_address(e) == t1
        }),
        ({
            let e = m[t1][l1_index_of(s) as int];
            entry_present(e) && entry_address(e) == fstart
        }),
    ensures
        forall|va: u64| s <= va < s + 0x1000 ==> walk(m, root, va) == Some(fstart + (va - s)),
{
    reveal(walk);
    assert forall|va: u64| s <= va < s + 0x1000 implies walk(m, root, va) == Some(
        fstart + (va - s),
    ) by {
        lemma_same_indices_normal(s, va);
    }
}

/// A root link to a table whose entry for `s` is a huge mapping
/// translates the whole 2 MiB page starting at `s` onto the frame at
/// `fstart`.
proof fn lemma_walk_range_huge(m: TableView, root: u64, t3: u64, s: u64, fstart: u64)
    requires
        s % 0x20_0000 == 0,
        table_ok(m, root),
        table_ok(m, t3),
        ({
            let e = m[root][l4_index_of(s) as int];
            entry_present(e) && !entry_huge(e) && entry_address(e) == t3
        }),
        ({
            let e = m[t3][l3_index_of(s) as int];
            entry_present(e) && entry_huge(e) && entry_address(e) - entry_address(e)
                % HUGE_PAGE_SIZE == fstart
        }),
    ensures
        forall|va: u64| s <= va < s + 0x20_0000 ==> walk(m, root, va) == Some(fstart + (va - s)),
{
    reveal(walk);
    assert forall|va: u64| s <= va < s + 0x20_0000 implies walk(m, root, va) == Some(
        fstart + (va - s),
    ) by {
        lemma_same_indices_huge(s, va);
    }
}

/// A two-link path to a table whose entry for `s` is a huge mapping
/// translates the first 2 MiB window of the 1 GiB page starting at `s` —
/// the span that reaches this level-2 slot — onto the frame at `fstart`.
proof fn lemma_walk_range_giant(m: TableView, root: u64, t3: u64, t2: u64, s: u64, fstart: u64)
    requires
        s % 0x4000_0000 == 0,
        table_ok(m, root),
        table_ok(m, t3),
        table_ok(m, t2),
        ({
            let e = m[root][l4_index_of(s) as int];
            entry_present(e) && !entry_huge(e) && entry_address(e) == t3
        }),
        ({
            let e = m[t3][l3_index_of(s) as int];
            entry_present(e) && !entry_huge(e) && entry_address(e) == t2
        }),
        ({
            let e = m[t2][l2_index_of(s) as int];
            entry_present(e) && entry_huge(e) && entry_address(e) - entry_address(e)
                % GIANT_PAGE_SIZE == fstart
        }),
    ensures
        forall|va: u64| s <= va < s + 0x20_0000 ==> walk(m, root, va) == Some(fstart + (va - s)),
{
    reveal(walk);
    assert forall|va: u64| s <= va < s + 0x20_0000 implies walk(m, root, va) == Some(
        fstart + (va - s),
    ) by {
        lemma_same_indices_giant(s, va);
    }
}


/// Page and frame have the same size class.
pub open spec fn same_size_class(page: Page, frame: PageFrame) -> bool {
    match (page, frame) {
        (Page::Normal(_), PageFrame::Normal(_)) => true,
        (Page::Huge(_), PageFrame::Huge(_)) => true,
        (Page::Giant(_), PageFrame::Giant(_)) => true,
        _ => false,
    }
}

/// The entries the mapper would walk through or overwrite on the way to
/// `page` carry no huge bit: a huge entry in the middle of the path would
/// make the walk reinterpret a mapped frame as a page table, which is the
/// fatal internal-consistency violation the design rules out.
#[verifier::opaque]
pub open spec fn map_path_ok(m: TableView, root: u64, page: Page) -> bool {
    let va = page.spec_start();
    let e4 = m[root][l4_index_of(va) as int];
    match page {
        Page::Huge(_) => !entry_huge(e4),
        Page::Giant(_) => !entry_huge(e4) && (entry_present(e4) ==> !entry_huge(
            m[entry_address(e4)][l3_index_of(va) as int],
        )),
        Page::Normal(_) => !entry_huge(e4) && (entry_present(e4) ==> {
            let e3 = m[entry_address(e4)][l3_index_of(va) as int];
            !entry_huge(e3) && (entry_present(e3) ==> !entry_huge(
                m[entry_address(e3)][l2_index_of(va) as int],
            ))
        }),
    }
}

/// The word in the terminal (level-1) slot for the normal page holding
/// `va`, if every link on the way to it exists.
#[verifier::opaque]
pub open spec fn normal_terminal_word(m: TableView, root: u64, va: u64) -> Option<u64> {
    if !table_ok(m, root) {
        None
    } else {
        let e4 = m[root][l4_index_of(va) as int];
        if !(entry_present(e4) && !entry_huge(e4) && table_ok(m, entry_address(e4))) {
            None
        } else {
            let t3 = entry_address(e4);
            let e3 = m[t3][l3_index_of(va) as int];
            if !(entry_present(e3) && !entry_huge(e3) && table_ok(m, entry_address(e3))) {
                None
            } else {
                let t2 = entry_address(e3);
                let e2 = m[t2][l2_index_of(va) as int];
                if !(entry_present(e2) && !entry_huge(e2) && table_ok(m, entry_address(e2))) {
                    None
                } else {
                    Some(m[entry_address(e2)][l1_index_of(va) as int])
                }
            }
        }
    }
}

/// The word in the terminal slot for `page`, if every link on the way to
/// it exists: the slot a `map_to` call for this page would fill.
#[verifier::opaque]
pub open spec fn terminal_word(m: TableView, root: u64, page: Page) -> Option<u64> {
    let va = page.spec_start();
    if !table_ok(m, root) {
        None
    } else {
        let e4 = m[root][l4_index_of(va) as int];
        if !(entry_present(e4) && !entry_huge(e4) && table_ok(m, entry_address(e4))) {
            None
        } else {
            let t3 = entry_address(e4);
            match page {
                Page::Huge(_) => Some(m[t3][l3_index_of(va) as int]),
                Page::Giant(_) => {
                    let e3 = m[t3][l3_index_of(va) as int];
                    if !(entry_present(e3) && !entry_huge(e3) && table_ok(m, entry_address(e3))) {
                        None
                    } else {
                        Some(m[entry_address(e3)][l2_index_of(va) as int])
                    }
                },
                Page::Normal(_) => normal_terminal_word(m, root, va),
            }
        }
    }
}

/// No entry of any table carries the huge bit. A fresh mapper is in this
/// state, and installing normal mappings keeps it; it implies that every
/// page's path is clear (see [`map_path_ok`]).
#[verifier::opaque]
pub open spec fn no_huge_anywhere(m: TableView) -> bool {
    forall|t: u64, i: int|
        m.dom().contains(t) && 0 <= i < m[t].len() ==> !entry_huge(#[trigger] m[t][i])
}

/// The span of virtual addresses that one terminal slot for this page
/// covers under the walk. A giant page's single level-2 slot is reached
/// only by the first 2 MiB window of the page, so only that window
/// translates through it.
pub open spec fn mapped_window(page: Page) -> u64 {
    match page {
        Page::Normal(_) => NORMAL_PAGE_SIZE,
        Page::Huge(_) => HUGE_PAGE_SIZE,
        Page::Giant(_) => HUGE_PAGE_SIZE,
    }
}


/// A well-formed root is a table of the view.
proof fn lemma_wf4_table_ok(m: TableView, root: u64)
    requires
        wf4(m, root),
    ensures
        table_ok(m, root),
{
    reveal(wf4);
}

/// Extension is reflexive.
proof fn lemma_extends_refl(m: TableView)
    ensures
        extends_nonpresent(m, m),
{
    reveal(extends_nonpresent);
}

/// A live link out of the root names a level-3 table.
proof fn lemma_link_at3(m: TableView, root: u64, i: int, a: u64)
    requires
        link_at(m, root, i, a),
    ensures
        at3(m, root, a),
{
    reveal(at3);
}

/// A live link out of a level-3 table names a level-2 table.
proof fn lemma_link_at2(m: TableView, root: u64, t: u64, i: int, a: u64)
    requires
        link_at(m, t, i, a),
        at3(m, root, t),
    ensures
        at2(m, root, a),
{
    reveal(at2);
}

/// A live link out of a level-2 table names a level-1 table.
proof fn lemma_link_at1(m: TableView, root: u64, t: u64, i: int, a: u64)
    requires
        link_at(m, t, i, a),
        at2(m, root, t),
    ensures
        at1(m, root, a),
{
    reveal(at1);
}

/// What level disjointness says of a member of each level set.
proof fn lemma_levels_apart(m: TableView, root: u64, a: u64)
    requires
        levels_ok(m, root),
    ensures
        at3(m, root, a) ==> a != root && !at2(m, root, a) && !at1(m, root, a),
        at2(m, root, a) ==> a != root && !at1(m, root, a) && !at3(m, root, a),
        at1(m, root, a) ==> a != root && !at3(m, root, a) && !at2(m, root, a),
{
    reveal(levels_ok);
}

/// Reading one entry of a well-formed root table.
proof fn lemma_walk_step4(m: TableView, root: u64, i: int)
    requires
        wf4(m, root),
        0 <= i < 512,
    ensures
        table_ok(m, root),
        !(entry_present(m[root][i]) && entry_huge(m[root][i])),
        entry_present(m[root][i]) ==> table_ok(m, entry_address(m[root][i])) && wf3(
            m,
            entry_address(m[root][i]),
        ) && at3(m, root, entry_address(m[root][i])),
{
    reveal(wf4);
    reveal(wf3);
    if entry_present(m[root][i]) {
        assert(link_at(m, root, i, entry_address(m[root][i])));
        lemma_link_at3(m, root, i, entry_address(m[root][i]));
    }
}

/// Reading one link of a well-formed level-3 table.
proof fn lemma_walk_step3(m: TableView, root: u64, t3: u64, i: int)
    requires
        wf3(m, t3),
        at3(m, root, t3),
        0 <= i < 512,
        entry_present(m[t3][i]),
        !entry_huge(m[t3][i]),
    ensures
        table_ok(m, entry_address(m[t3][i])),
        wf2(m, entry_address(m[t3][i])),
        at2(m, root, entry_address(m[t3][i])),
{
    reveal(wf3);
    reveal(wf2);
    assert(link_at(m, t3, i, entry_address(m[t3][i])));
    lemma_link_at2(m, root, t3, i, entry_address(m[t3][i]));
}

/// Reading one link of a well-formed level-2 table.
proof fn lemma_walk_step2(m: TableView, root: u64, t2: u64, i: int)
    requires
        wf2(m, t2),
        at2(m, root, t2),
        0 <= i < 512,
        entry_present(m[t2][i]),
        !entry_huge(m[t2][i]),
    ensures
        table_ok(m, entry_address(m[t2][i])),
        wf1(m, entry_address(m[t2][i])),
        at1(m, root, entry_address(m[t2][i])),
{
    reveal(wf2);
    reveal(wf1);
    assert(link_at(m, t2, i, entry_address(m[t2][i])));
    lemma_link_at1(m, root, t2, i, entry_address(m[t2][i]));
}

/// Replacing one entry with a non-huge word keeps the view free of huge
/// entries.
proof fn lemma_no_huge_update(m: TableView, m2: TableView, t: u64, i: int, w: u64)
    requires
        table_ok(m, t),
        0 <= i < 512,
        m2 == m.insert(t, m[t].update(i, w)),
        !entry_huge(w),
        no_huge_anywhere(m),
    ensures
        no_huge_anywhere(m2),
{
    reveal(no_huge_anywhere);
    assert(forall|u: u64| m.dom().contains(u) && u != t ==> m2[u] == m[u]);
    assert forall|u: u64, j: int|
        m2.dom().contains(u) && 0 <= j < m2[u].len() implies !entry_huge(#[trigger] m2[u][j]) by {
        if u == t && j == i {
        } else {
            assert(m2[u][j] == m[u][j]);
        }
    }
}

/// Without a huge entry anywhere, every page's path is clear.
pub proof fn lemma_no_huge_path_ok(m: TableView, root: u64, page: Page)
    requires
        no_huge_anywhere(m),
        wf4(m, root),
    ensures
        map_path_ok(m, root, page),
{
    reveal(no_huge_anywhere);
    reveal(map_path_ok);
    let va = page.spec_start();
    let e4 = m[root][l4_index_of(va) as int];
    lemma_walk_step4(m, root, l4_index_of(va) as int);
    if entry_present(e4) {
        let t3 = entry_address(e4);
        reveal(wf3);
        reveal(wf2);
        let e3 = m[t3][l3_index_of(va) as int];
        if entry_present(e3) && !entry_huge(e3) {
            lemma_walk_step3(m, root, t3, l3_index_of(va) as int);
        }
    }
}

/// Walks the four-level table hierarchy through the physical-memory
/// offset: translates virtual addresses and installs new mappings,
/// allocating intermediate tables on demand.
pub struct OffsetMemoryMapper {
    physical_memory_offset: VirtualAddress,
    l4_table_address: PhysicalAddress,
    /// Source of physical frames for new intermediate tables; also used
    /// directly by heap setup to obtain backing frames.
    pub frame_allocator: FrameAllocator,
    tables: HashMap<u64, PageTable>,
}

impl OffsetMemoryMapper {
    /// The structured view of the page tables this mapper manages.
    pub closed spec fn mem(self) -> TableView {
        Map::new(
            |a: u64| self.tables@.dom().contains(a),
            |a: u64| self.tables@[a]@,
        )
    }

    /// The frame allocator as a specification value.
    pub closed spec fn spec_frame_allocator(self) -> FrameAllocator {
        self.frame_allocator
    }

    /// Physical address of the level-4 (root) table.
    pub closed spec fn root(self) -> u64 {
        self.l4_table_address@
    }

    /// The fixed virtual address at which physical memory is mapped.
    pub closed spec fn spec_offset(self) -> u64 {
        self.physical_memory_offset@
    }

    /// The remaining frames of the allocator, from its cursor on; empty
    /// once the cursor has run past the memory map.
    pub closed spec fn future_frames(self) -> Seq<u64> {
        let frames = frame_seq(self.frame_allocator.spec_regions());
        if self.frame_allocator.spec_next() <= frames.len() {
            frames.skip(self.frame_allocator.spec_next())
        } else {
            Seq::empty()
        }
    }

    /// The mapper's invariant.
    ///
    /// The table tree under the root is well formed with its levels
    /// disjoint, the frame allocator is well formed, and every frame it
    /// can still hand out is fresh: distinct from all the others and not
    /// yet a table. The boot collaborator guarantees the freshness part by
    /// marking only truly unused memory usable.
    pub closed spec fn wf(self) -> bool {
        &&& self.frame_allocator.wf()
        &&& wf4(self.mem(), self.root())
        &&& levels_ok(self.mem(), self.root())
        &&& forall|j: int|
            0 <= j < self.future_frames().len() ==> !self.mem().dom().contains(
                #[trigger] self.future_frames()[j],
            ) && self.future_frames()[j] % 4096 == 0
        &&& forall|j1: int, j2: int|
            0 <= j1 < j2 < self.future_frames().len() ==> #[trigger] self.future_frames()[j1]
                != #[trigger] self.future_frames()[j2]
    }

    /// Creates a mapper over a fresh, empty root table at
    /// `l4_table_address`, with physical memory mapped at
    /// `physical_memory_offset`.
    ///
    /// The allocator's frames are trusted to be really unused: pairwise
    /// distinct, 4 KiB-aligned by construction, and none of them the root.
    /// A fresh mapper translates nothing.
    pub fn new(
        physical_memory_offset: VirtualAddress,
        l4_table_address: PhysicalAddress,
        frame_allocator: FrameAllocator,
    ) -> (r: Self)
        requires
            frame_allocator.wf(),
            frame_allocator.spec_next() == 0,
            forall|j1: int, j2: int|
                0 <= j1 < j2 < frame_seq(frame_allocator.spec_regions()).len()
                    ==> #[trigger] frame_seq(frame_allocator.spec_regions())[j1]
                    != #[trigger] frame_seq(frame_allocator.spec_regions())[j2],
            forall|j: int|
                0 <= j < frame_seq(frame_allocator.spec_regions()).len() ==> #[trigger] frame_seq(
                    frame_allocator.spec_regions(),
                )[j] != l4_table_address@,
        ensures
            r.wf(),
            r.root() == l4_table_address@,
            r.spec_offset() == physical_memory_offset@,
            r.spec_frame_allocator() == frame_allocator,
            forall|va: u64| walk(r.mem(), r.root(), va) is None,
            no_huge_anywhere(r.mem()),
    {
        let mut tables: HashMap<u64, PageTable> = HashMap::new();
        let table = PageTable::new();
        let ghost tview = table@;
        tables.insert(l4_table_address.as_u64(), table);
        let mapper = OffsetMemoryMapper {
            physical_memory_offset,
            l4_table_address,
            frame_allocator,
            tables,
        };
        proof {
            reveal(wf4);
            reveal(at3);
            reveal(at2);
            reveal(at1);
            reveal(levels_ok);
            reveal(walk);
            let m = mapper.mem();
            let root = mapper.root();
            assert(m.dom() =~= set![root]);
            assert(m[root] == tview);
            lemma_zero_word();
            assert(forall|i: int| 0 <= i < 512 ==> !entry_present(#[trigger] m[root][i]));
            assert(forall|a: u64| !at3(m, root, a) && !at2(m, root, a) && !at1(m, root, a));
            assert(forall|j: int|
                0 <= j < mapper.future_frames().len() ==> #[trigger] mapper.future_frames()[j]
                    == frame_seq(frame_allocator.spec_regions())[j]);
            assert(forall|j: int|
                0 <= j < mapper.future_frames().len() ==> (#[trigger] mapper.future_frames()[j])
                    % 4096 == 0) by {
                assert(forall|j: int|
                    0 <= j < frame_seq(frame_allocator.spec_regions()).len()
                        ==> (#[trigger] frame_seq(frame_allocator.spec_regions())[j]) % 4096
                        == 0) by {
                    lemma_frame_seq_aligned(frame_allocator.spec_regions());
                }
            }
            assert(forall|va: u64|
                0 <= l4_index_of(va) < 512 && !entry_present(m[root][l4_index_of(va) as int])
                    ==> walk(m, root, va) is None);
            assert(no_huge_anywhere(m)) by {
                reveal(no_huge_anywhere);
                lemma_zero_word();
            }
        }
        mapper
    }


    /// Stores a new table at a physical address the view does not hold yet.
    fn insert_table(&mut self, addr: u64, table: PageTable)
        requires
            !old(self).mem().dom().contains(addr),
        ensures
            final(self).mem() == old(self).mem().insert(addr, table@),
            final(self).spec_frame_allocator() == old(self).spec_frame_allocator(),
            final(self).root() == old(self).root(),
            final(self).spec_offset() == old(self).spec_offset(),
    {
        let ghost tview = table@;
        self.tables.insert(addr, table);
        proof {
            assert(self.mem() =~= old(self).mem().insert(addr, tview));
        }
    }

    /// Replaces one entry of the table at `table`.
    fn set_table_entry(&mut self, table: u64, index: PageTableIndex, entry: PageTableEntry)
        requires
            table_ok(old(self).mem(), table),
        ensures
            final(self).mem() == old(self).mem().insert(
                table,
                old(self).mem()[table].update(index@ as int, entry@),
            ),
            final(self).spec_frame_allocator() == old(self).spec_frame_allocator(),
            final(self).root() == old(self).root(),
            final(self).spec_offset() == old(self).spec_offset(),
    {
        let mut t: PageTable = match self.tables.remove(&table) {
            Some(t) => t,
            None => {
                proof {
                    assert(false);
                }
                PageTable::new()
            },
        };
        t.set_entry(index, entry);
        self.tables.insert(table, t);
        proof {
            assert(self.mem() =~= old(self).mem().insert(
                table,
                old(self).mem()[table].update(index@ as int, entry@),
            ));
        }
    }

    /// Resolves a missing intermediate entry: takes a fresh frame from the
    /// allocator, stores a zeroed table in it, and links the parent entry
    /// to it with the flags restricted to present, writable and
    /// user-accessible — the only flags that mean anything on an
    /// intermediate table. Stale flag bits of the old entry survive, so the
    /// old entry must not carry the huge bit.
    ///
    /// `pos` names the parent's place in the tree: 4 for the root, 3 or 2
    /// for a table of that level set, 0 for a table no level set reaches.
    fn ensure_child(
        &mut self,
        parent: u64,
        index: PageTableIndex,
        flags: PageTableEntryFlags,
        Ghost(pos): Ghost<int>,
    ) -> (r: Result<u64, MappingError>)
        requires
            old(self).wf(),
            table_ok(old(self).mem(), parent),
            !entry_present(old(self).mem()[parent][index@ as int]),
            !entry_huge(old(self).mem()[parent][index@ as int]),
            pos == 4 ==> parent == old(self).root(),
            pos == 3 ==> at3(old(self).mem(), old(self).root(), parent),
            pos == 2 ==> at2(old(self).mem(), old(self).root(), parent),
            pos == 0 ==> parent != old(self).root() && !at3(
                old(self).mem(),
                old(self).root(),
                parent,
            ) && !at2(old(self).mem(), old(self).root(), parent),
            pos == 0 || pos == 2 || pos == 3 || pos == 4,
            old(self).spec_frame_allocator().spec_next() < usize::MAX,
        ensures
            final(self).wf(),
            final(self).root() == old(self).root(),
            final(self).spec_offset() == old(self).spec_offset(),
            final(self).spec_frame_allocator().spec_regions() == old(self).spec_frame_allocator().spec_regions(),
            final(self).spec_frame_allocator().spec_next() == old(self).spec_frame_allocator().spec_next() + 1,
            match r {
                Err(e) => e == MappingError::FrameAllocationFailed && final(self).mem() == old(self).mem() && old(self).future_frames().len() == 0,
                Ok(child) => ({
                    let m1 = old(self).mem();
                    let root = old(self).root();
                    let w = final(self).mem()[parent][index@ as int];
                    &&& old(self).future_frames().len() > 0
                    &&& child == old(self).future_frames()[0]
                    &&& !m1.dom().contains(child)
                    &&& child != root
                    &&& extends_nonpresent(m1, final(self).mem())
                    &&& table_ok(final(self).mem(), child)
                    &&& (forall|i: int| 0 <= i < 512 ==> final(self).mem()[child][i] == 0u64)
                    &&& table_ok(final(self).mem(), parent)
                    &&& (forall|t: u64, i: int|
                        m1.dom().contains(t) && 0 <= i < m1[t].len() && !(t == parent && i
                            == index@ as int) ==> #[trigger] final(self).mem()[t][i] == m1[t][i])
                    &&& (forall|t: u64|
                        #[trigger] final(self).mem().dom().contains(t) ==> m1.dom().contains(t)
                            || t == child)
                    &&& (forall|t: u64|
                        m1.dom().contains(t) ==> #[trigger] final(self).mem().dom().contains(t))
                    &&& (forall|t: u64|
                        m1.dom().contains(t) ==> (#[trigger] final(self).mem()[t]).len()
                            == m1[t].len())
                    &&& entry_present(w) == (flags@ & 0x1 == 0x1)
                    &&& !entry_huge(w)
                    &&& entry_address(w) == child
                    &&& (pos == 4 && entry_present(w) ==> at3(final(self).mem(), root, child))
                    &&& (pos == 3 && entry_present(w) ==> at2(final(self).mem(), root, child))
                    &&& (pos == 2 && entry_present(w) ==> at1(final(self).mem(), root, child))
                    &&& (pos == 0 || !entry_present(w) ==> !at3(final(self).mem(), root, child)
                        && !at2(final(self).mem(), root, child) && !at1(
                        final(self).mem(),
                        root,
                        child,
                    ))
                    &&& (forall|a: u64| #[trigger]
                        at3(m1, root, a) ==> at3(final(self).mem(), root, a))
                    &&& (forall|a: u64| #[trigger]
                        at2(m1, root, a) ==> at2(final(self).mem(), root, a))
                    &&& (no_huge_anywhere(m1) ==> no_huge_anywhere(final(self).mem()))
                    &&& (forall|va: u64|
                        walk(m1, root, va) is Some ==> #[trigger] walk(
                            final(self).mem(),
                            root,
                            va,
                        ) == walk(m1, root, va))
                }),
            },
    {
        proof {
            use_type_invariant(&index);
        }
        let ghost m1 = self.mem();
        let ghost root = self.root();
        let ghost old_future = self.future_frames();
        let frame: PageFrame = match self.frame_allocator.allocate_normal_frame() {
            Some(f) => f,
            None => {
                proof {
                    assert(self.mem() =~= m1);
                    assert(self.future_frames() =~= Seq::<u64>::empty());
                }
                return Err(MappingError::FrameAllocationFailed);
            },
        };
        let frame_start: PhysicalAddress = frame.start_address();
        let child: u64 = frame_start.as_u64();
        proof {
            let frames = frame_seq(old(self).spec_frame_allocator().spec_regions());
            let n = old(self).spec_frame_allocator().spec_next();
            assert(0 <= n < frames.len());
            assert(old_future == frames.subrange(n, frames.len() as int));
            assert(old_future.len() == frames.len() - n);
            assert(old_future[0] == frames[n]);
            assert(child == frames[n]);
            assert(!old(self).mem().dom().contains(old_future[0]) && old_future[0] % 4096 == 0);
            assert(child == old_future[0]);
            assert(!m1.dom().contains(child) && child % 4096 == 0);
            assert(child != root) by {
                lemma_wf4_table_ok(m1, root);
            }
            assert(self.mem() =~= m1);
            assert(self.future_frames() == frames.skip(n + 1));
            assert(forall|j: int|
                0 <= j < self.future_frames().len() ==> #[trigger] self.future_frames()[j]
                    == frames[j + n + 1] && old_future[j + 1] == frames[j + n + 1]);
        }
        let ghost future1 = self.future_frames();
        let fresh_table = PageTable::new();
        proof {
            assert(fresh_table@ =~= zero_table());
        }
        self.insert_table(child, fresh_table);
        proof {
            assert(self.mem() =~= m1.insert(child, zero_table()));
            lemma_insert_fresh(m1, self.mem(), root, child);
        }
        let ghost m_ins = self.mem();
        let masked: PageTableEntryFlags = flags.and(
            PageTableEntryFlags::present().or(PageTableEntryFlags::writable()).or(
                PageTableEntryFlags::user_accessible(),
            ),
        );
        let mut entry: PageTableEntry = self.table_entry(parent, index);
        entry.set_address(frame_start, masked);
        let ghost w = entry@;
        proof {
            let olde = m1[parent][index@ as int];
            let f = flags@;
            use_type_invariant(&frame_start);
            assert(child < 0x10_0000_0000_0000);
            assert(0x1u64 | 0x2 == 0x3 && 0x3u64 | 0x4 == 0x7) by (bit_vector);
            assert((child % 4096 == 0 && child < 0x10_0000_0000_0000 && olde & 0x1 != 0x1 && olde
                & 0x80 != 0x80) ==> {
                let ww = (child | (olde & 0x8000_0000_0000_01ffu64)) | (f & 0x7);
                &&& (ww & 0x1 == 0x1) == (f & 0x1 == 0x1)
                &&& ww & 0x80 != 0x80
                &&& ww & 0x000f_ffff_ffff_f000 == child
            }) by (bit_vector);
        }
        self.set_table_entry(parent, index, entry);
        proof {
            assert(self.mem() == m_ins.insert(parent, m_ins[parent].update(index@ as int, w)));
            assert(m_ins[parent] == m1[parent]);
            lemma_wf_after_link(m_ins, self.mem(), root, parent, index@ as int, w);
            lemma_atsets_after_link(m_ins, self.mem(), root, parent, index@ as int, w, pos);
            lemma_extends_trans(m1, m_ins, self.mem());
            assert forall|va: u64| walk(m1, root, va) is Some implies #[trigger] walk(
                self.mem(),
                root,
                va,
            ) == walk(m1, root, va) by {
                lemma_walk_monotone(m1, self.mem(), root, va);
            }
            // The allocator's remaining frames stay fresh: the frame just
            // consumed is gone from the suffix, and the new table is that
            // frame, distinct from every later one.
            assert(self.future_frames() =~= future1);
            assert forall|j: int|
                0 <= j < self.future_frames().len() implies !self.mem().dom().contains(
                #[trigger] self.future_frames()[j],
            ) && self.future_frames()[j] % 4096 == 0 by {
                assert(old_future[j + 1] == self.future_frames()[j]);
                assert(old_future[0] != old_future[j + 1]);
            }
            assert(at3(m1, root, parent) ==> at3(m_ins, root, parent));
            assert(at2(m1, root, parent) ==> at2(m_ins, root, parent));
            assert(pos == 0 ==> !at3(m_ins, root, parent) && !at2(m_ins, root, parent));
            if no_huge_anywhere(m1) {
                assert(no_huge_anywhere(m_ins)) by {
                    reveal(no_huge_anywhere);
                    lemma_zero_word();
                    assert(forall|u: u64| m1.dom().contains(u) ==> m_ins[u] == m1[u]);
                }
                lemma_no_huge_update(m_ins, self.mem(), parent, index@ as int, w);
            }
        }
        Ok(child)
    }


    /// Bit structure of a terminal word: a frame base merged with flag
    /// bits keeps the base as its address part, and takes its present and
    /// huge bits from the flags.
    proof fn lemma_terminal_word_bits(fs: u64, fl: u64)
        requires
            fs % 4096 == 0,
            fs < 0x10_0000_0000_0000,
            fl & crate::paging::PAGE_TABLE_ENTRY_FLAGS_MASK == fl,
        ensures
            entry_address(fs | fl) == fs,
            entry_present(fs | fl) == (fl & 0x1 == 0x1),
            entry_huge(fs | fl) == (fl & 0x80 == 0x80),
            (0u64 & crate::paging::PAGE_TABLE_ENTRY_FLAGS_MASK) == 0u64,
            fs | 0u64 == fs,
    {
        assert((fs % 4096 == 0 && fs < 0x10_0000_0000_0000 && fl & 0x8000_0000_0000_01ffu64 == fl)
            ==> ((fs | fl) & 0x000f_ffff_ffff_f000 == fs && ((fs | fl) & 0x1 == 0x1) == (fl & 0x1
            == 0x1) && ((fs | fl) & 0x80 == 0x80) == (fl & 0x80 == 0x80) && 0u64
            & 0x8000_0000_0000_01ffu64 == 0u64 && (fs | 0u64) == fs)) by (bit_vector);
    }

    /// A frame base aligned to a huge or giant page is also 4 KiB aligned.
    proof fn lemma_alignment_implies(x: u64)
        ensures
            x % 0x20_0000 == 0 ==> x % 0x1000 == 0,
            x % 0x4000_0000 == 0 ==> x % 0x1000 == 0,
            x % 0x20_0000 == 0 ==> x - x % 0x20_0000 == x,
            x % 0x4000_0000 == 0 ==> x - x % 0x4000_0000 == x,
    {
        assert((x % 0x20_0000 == 0 ==> x % 0x1000 == 0) && (x % 0x4000_0000 == 0 ==> x % 0x1000
            == 0)) by (bit_vector);
    }

    /// Install a mapping of `page` onto `frame` with the given flags.
    ///
    /// The walk from the root is extended downward; absent intermediate
    /// tables are allocated, zeroed and linked in with the flags reduced
    /// to present, writable and user-accessible. Mismatched size classes
    /// are rejected; a terminal slot that already carries data is
    /// rejected without changing anything, since silently remapping would
    /// alias the old translation; and running out of frames aborts the
    /// attempt, leaving every existing translation intact. A normal
    /// mapping must not carry the huge flag: the hardware never accepts
    /// a huge entry in a level-1 table.
    ///
    /// On success, and when the flags include the present bit, the
    /// mapped window of the page translates exactly onto the frame, and
    /// every translation that existed before is unchanged.
    #[verifier::rlimit(100)]
    #[verifier::spinoff_prover]
    fn map_normal(
        &mut self,
        p: PageInner<Size4KiB>,
        f: PageFrameInner<Size4KiB>,
        flags: PageTableEntryFlags,
    ) -> (r: Result<(), MappingError>)
        requires
            old(self).wf(),
            map_path_ok(old(self).mem(), old(self).root(), Page::Normal(p)),
            Page::Normal(p) is Normal ==> flags@ & 0x80 != 0x80,
            old(self).spec_frame_allocator().spec_next() + 3 <= usize::MAX,
        ensures
            final(self).root() == old(self).root(),
            final(self).spec_offset() == old(self).spec_offset(),
            final(self).spec_frame_allocator().spec_regions() == old(self).spec_frame_allocator().spec_regions(),
            old(self).spec_frame_allocator().spec_next() <= final(self).spec_frame_allocator().spec_next() <= old(self).spec_frame_allocator().spec_next()
                + 3,
            match r {
                Err(MappingError::InvalidPageFrameMapping) => !same_size_class(Page::Normal(p), PageFrame::Normal(f)) && *final(self) == *old(self),
                Err(MappingError::PageTableEntryAlreadyUsed) => same_size_class(Page::Normal(p), PageFrame::Normal(f))
                    && *final(self) == *old(self) && (terminal_word(
                    old(self).mem(),
                    old(self).root(),
                    Page::Normal(p),
                ) matches Some(w) && w != 0u64),
                Err(MappingError::FrameAllocationFailed) => same_size_class(Page::Normal(p), PageFrame::Normal(f)) && final(self).wf() && extends_nonpresent(old(self).mem(), final(self).mem()) && final(self).spec_frame_allocator().spec_next() >= frame_seq(final(self).spec_frame_allocator().spec_regions()).len() && terminal_word(old(self).mem(), old(self).root(), Page::Normal(p)) is None && (forall|va: u64| Page::Normal(p).spec_start() <= va < Page::Normal(p).spec_start() + mapped_window(Page::Normal(p)) ==> #[trigger] walk(final(self).mem(), old(self).root(), va) is None) && (no_huge_anywhere(old(self).mem())
                    ==> no_huge_anywhere(final(self).mem())) && (forall|va: u64|
                    walk(old(self).mem(), old(self).root(), va) is Some ==> #[trigger] walk(
                        final(self).mem(),
                        old(self).root(),
                        va,
                    ) == walk(old(self).mem(), old(self).root(), va)),
                Ok(()) => same_size_class(Page::Normal(p), PageFrame::Normal(f)) && final(self).wf() && extends_nonpresent(
                    old(self).mem(),
                    final(self).mem(),
                ) && (terminal_word(old(self).mem(), old(self).root(), Page::Normal(p)) is None
                    || terminal_word(old(self).mem(), old(self).root(), Page::Normal(p)) == Some(0u64)) && (
                Page::Normal(p) is Normal && no_huge_anywhere(old(self).mem()) ==> no_huge_anywhere(
                    final(self).mem(),
                )) && (forall|va: u64|
                    walk(old(self).mem(), old(self).root(), va) is Some ==> #[trigger] walk(
                        final(self).mem(),
                        old(self).root(),
                        va,
                    ) == walk(old(self).mem(), old(self).root(), va)) && (flags@ & 0x1 == 0x1
                    ==> forall|va: u64|
                    Page::Normal(p).spec_start() <= va < Page::Normal(p).spec_start() + mapped_window(Page::Normal(p))
                        ==> #[trigger] walk(final(self).mem(), old(self).root(), va) == Some(
                        PageFrame::Normal(f).spec_start() + (va - Page::Normal(p).spec_start()),
                    )) && (flags@ & 0x1 == 0x1 ==> terminal_word(final(self).mem(), old(self).root(), Page::Normal(p)) == Some(PageFrame::Normal(f).spec_start() | flags@)) && (flags@ & 0x1 == 0x1 ==> forall|va: u64| l4_index_of(va) == l4_index_of(Page::Normal(p).spec_start()) && l3_index_of(va) == l3_index_of(Page::Normal(p).spec_start()) && l2_index_of(va) == l2_index_of(Page::Normal(p).spec_start()) && l1_index_of(va) != l1_index_of(Page::Normal(p).spec_start()) ==> #[trigger] normal_terminal_word(final(self).mem(), old(self).root(), va) == (match normal_terminal_word(old(self).mem(), old(self).root(), va) { Some(wv) => Some(wv), None => Some(0u64) })),
            },
            same_size_class(Page::Normal(p), PageFrame::Normal(f)) && (terminal_word(old(self).mem(), old(self).root(), Page::Normal(p)) matches Some(w) && w != 0u64) ==> r == Err::<(), MappingError>(MappingError::PageTableEntryAlreadyUsed),
            same_size_class(Page::Normal(p), PageFrame::Normal(f)) && (terminal_word(old(self).mem(), old(self).root(), Page::Normal(p)) is None || terminal_word(old(self).mem(), old(self).root(), Page::Normal(p)) == Some(0u64)) && old(self).spec_frame_allocator().spec_next() + 4 <= frame_seq(old(self).spec_frame_allocator().spec_regions()).len() ==> r is Ok,
    {
            proof {
                use_type_invariant(&p);
                use_type_invariant(&f);
                use_type_invariant(&flags);
            }
            let ghost page = Page::Normal(p);
            let ghost m0 = self.mem();
            let ghost rootg = self.root();
            let ghost s = p.spec_start();
            let ghost fstart = f.spec_start();
            let ghost flagsp = flags@ & 0x1 == 0x1;
            let root: u64 = self.l4_table_address.as_u64();
            let idx4 = p.p4_index();
            let idx3 = p.p3_index();
            let idx2 = p.p2_index();
            let idx1 = p.p1_index();
            proof {
                use_type_invariant(&idx4);
                use_type_invariant(&idx3);
                use_type_invariant(&idx2);
                use_type_invariant(&idx1);
            }

            // Level 4: find or create the level-3 table.
            proof {
                lemma_walk_step4(self.mem(), rootg, idx4@ as int);
            }
            let e4 = self.table_entry(root, idx4);
            let (t3, created3): (u64, Ghost<bool>) = match e4.frame(
                PageTableLevel::Level4,
            ) {
                Ok(fr) => {
                    let a = fr.start_address().as_u64();
                    proof {
                        assert(a == entry_address(e4@));
                        assert(at3(self.mem(), rootg, a));
                    }
                    (a, Ghost(false))
                },
                Err(_) => {
                    proof {
                        reveal(map_path_ok);
                        assert(!entry_huge(self.mem()[rootg][idx4@ as int]));
                    }
                    match self.ensure_child(root, idx4, flags, Ghost(4int)) {
                        Ok(c) => (c, Ghost(true)),
                        Err(e) => {
                            proof {
                                assert(self.future_frames() =~= Seq::<u64>::empty());
                                lemma_extends_refl(self.mem());
                                assert(self.spec_frame_allocator().spec_next() >= frame_seq(
                                    self.spec_frame_allocator().spec_regions(),
                                ).len());
                                assert(terminal_word(m0, rootg, page) is None) by {
                                    reveal(terminal_word);
                                    reveal(normal_terminal_word);
                                }
                                assert forall|va: u64| s <= va < s + 0x1000 implies walk(
                                    self.mem(),
                                    rootg,
                                    va,
                                ) is None by {
                                    lemma_same_indices_normal(s, va);
                                    reveal(walk);
                                }
                            }
                            return Err(e);
                        },
                    }
                },
            };
            proof {
                lemma_wf4_table_ok(self.mem(), rootg);
                lemma_levels_apart(self.mem(), rootg, t3);
                assert(table_ok(self.mem(), t3));
                assert(t3 != rootg);
                assert(!created3@ ==> *self == *old(self) && entry_present(
                    m0[rootg][idx4@ as int],
                ));
                assert(flagsp || !created3@ ==> at3(self.mem(), rootg, t3));
                assert(created3@ && !flagsp ==> !at3(self.mem(), rootg, t3) && !at2(
                    self.mem(),
                    rootg,
                    t3,
                ));
                assert(created3@ ==> forall|i: int|
                    0 <= i < 512 ==> self.mem()[t3][i] == 0u64);
                assert({
                    let e = self.mem()[rootg][idx4@ as int];
                    entry_present(e) == (flagsp || !created3@) && !entry_huge(e)
                        && entry_address(e) == t3
                });
            }
            let ghost m_a = self.mem();

            // Level 3: find or create the level-2 table.
            let e3 = self.table_entry(t3, idx3);
            proof {
                assert(!entry_huge(e3@)) by {
                    reveal(map_path_ok);
                    if created3@ {
                        assert(e3@ == 0u64);
                        lemma_zero_word();
                    } else {
                        assert(e3@ == m0[entry_address(m0[rootg][idx4@ as int])][idx3@
                            as int]);
                    }
                }
            }
            let ghost pos3: int = if at3(self.mem(), rootg, t3) {
                3
            } else {
                0
            };
            let (t2, created2): (u64, Ghost<bool>) = match e3.frame(
                PageTableLevel::Level3,
            ) {
                Ok(fr) => {
                    let a = fr.start_address().as_u64();
                    proof {
                        lemma_zero_word();
                        assert(!created3@);
                        assert(a == entry_address(e3@));
                        lemma_walk_step3(self.mem(), rootg, t3, idx3@ as int);
                        assert(at2(self.mem(), rootg, a));
                    }
                    (a, Ghost(false))
                },
                Err(_) => {
                    match self.ensure_child(t3, idx3, flags, Ghost(pos3)) {
                        Ok(c) => (c, Ghost(true)),
                        Err(e) => {
                            proof {
                                assert(self.future_frames() =~= Seq::<u64>::empty());
                                lemma_extends_refl(m0);
                                lemma_extends_refl(m_a);
                                lemma_extends_refl(self.mem());
                                lemma_extends_trans(m0, m_a, self.mem());
                                assert(self.spec_frame_allocator().spec_next() >= frame_seq(
                                    self.spec_frame_allocator().spec_regions(),
                                ).len());
                                assert(terminal_word(m0, rootg, page) is None) by {
                                    reveal(terminal_word);
                                    reveal(normal_terminal_word);
                                }
                                assert forall|va: u64| s <= va < s + 0x1000 implies walk(
                                    self.mem(),
                                    rootg,
                                    va,
                                ) is None by {
                                    lemma_same_indices_normal(s, va);
                                    reveal(walk);
                                }
                                assert forall|va: u64|
                                    walk(m0, rootg, va) is Some implies #[trigger] walk(
                                    self.mem(),
                                    rootg,
                                    va,
                                ) == walk(m0, rootg, va) by {
                                    lemma_walk_monotone(m0, self.mem(), rootg, va);
                                }
                            }
                            return Err(e);
                        },
                    }
                },
            };
            proof {
                lemma_wf4_table_ok(self.mem(), rootg);
                lemma_levels_apart(self.mem(), rootg, t2);
                lemma_levels_apart(self.mem(), rootg, t3);
                assert(table_ok(self.mem(), t2));
                assert(table_ok(self.mem(), t3));
                assert(t2 != rootg && t2 != t3);
                assert(!created2@ ==> !created3@ && *self == *old(self));
                assert(flagsp || !created2@ ==> at2(self.mem(), rootg, t2));
                assert(created2@ && !flagsp ==> !at3(self.mem(), rootg, t2) && !at2(
                    self.mem(),
                    rootg,
                    t2,
                ) && !at1(self.mem(), rootg, t2));
                assert(created2@ ==> forall|i: int|
                    0 <= i < 512 ==> self.mem()[t2][i] == 0u64);
                assert(flagsp || !created3@ ==> at3(self.mem(), rootg, t3));
                assert({
                    let e = self.mem()[rootg][idx4@ as int];
                    entry_present(e) == (flagsp || !created3@) && !entry_huge(e)
                        && entry_address(e) == t3
                });
                assert({
                    let e = self.mem()[t3][idx3@ as int];
                    entry_present(e) == (flagsp || !created2@) && !entry_huge(e)
                        && entry_address(e) == t2
                });
                lemma_extends_refl(m0);
                lemma_extends_refl(m_a);
                lemma_extends_trans(m0, m_a, self.mem());
            }
            let ghost m_b = self.mem();

            // Level 2: find or create the level-1 table.
            let e2 = self.table_entry(t2, idx2);
            proof {
                assert(!entry_huge(e2@)) by {
                    reveal(map_path_ok);
                    if created2@ {
                        assert(e2@ == 0u64);
                        lemma_zero_word();
                    } else {
                        assert(*self == *old(self));
                    }
                }
            }
            let ghost pos2: int = if at2(self.mem(), rootg, t2) {
                2
            } else {
                0
            };
            let (t1, created1): (u64, Ghost<bool>) = match e2.frame(
                PageTableLevel::Level2,
            ) {
                Ok(fr) => {
                    let a = fr.start_address().as_u64();
                    proof {
                        lemma_zero_word();
                        assert(!created2@ && !created3@);
                        assert(a == entry_address(e2@));
                        lemma_walk_step2(self.mem(), rootg, t2, idx2@ as int);
                        assert(at1(self.mem(), rootg, a));
                    }
                    (a, Ghost(false))
                },
                Err(_) => {
                    match self.ensure_child(t2, idx2, flags, Ghost(pos2)) {
                        Ok(c) => (c, Ghost(true)),
                        Err(e) => {
                            proof {
                                assert(self.future_frames() =~= Seq::<u64>::empty());
                                lemma_extends_refl(m0);
                                lemma_extends_refl(m_b);
                                lemma_extends_refl(self.mem());
                                lemma_extends_trans(m0, m_b, self.mem());
                                assert(self.spec_frame_allocator().spec_next() >= frame_seq(
                                    self.spec_frame_allocator().spec_regions(),
                                ).len());
                                assert(terminal_word(m0, rootg, page) is None) by {
                                    reveal(terminal_word);
                                    reveal(normal_terminal_word);
                                }
                                assert forall|va: u64| s <= va < s + 0x1000 implies walk(
                                    self.mem(),
                                    rootg,
                                    va,
                                ) is None by {
                                    lemma_same_indices_normal(s, va);
                                    reveal(walk);
                                }
                                assert forall|va: u64|
                                    walk(m0, rootg, va) is Some implies #[trigger] walk(
                                    self.mem(),
                                    rootg,
                                    va,
                                ) == walk(m0, rootg, va) by {
                                    lemma_walk_monotone(m0, self.mem(), rootg, va);
                                }
                            }
                            return Err(e);
                        },
                    }
                },
            };
            proof {
                lemma_wf4_table_ok(self.mem(), rootg);
                lemma_levels_apart(self.mem(), rootg, t1);
                lemma_levels_apart(self.mem(), rootg, t3);
                lemma_levels_apart(self.mem(), rootg, t2);
                assert(table_ok(self.mem(), t1));
                assert(table_ok(self.mem(), t3));
                assert(table_ok(self.mem(), t2));
                assert(t1 != rootg && t1 != t3 && t1 != t2);
                assert(!created1@ ==> !created2@ && !created3@ && *self == *old(self));
                assert(flagsp || !created1@ ==> at1(self.mem(), rootg, t1));
                assert(created1@ && !flagsp ==> !at3(self.mem(), rootg, t1) && !at2(
                    self.mem(),
                    rootg,
                    t1,
                ) && !at1(self.mem(), rootg, t1));
                assert(created1@ ==> forall|i: int|
                    0 <= i < 512 ==> self.mem()[t1][i] == 0u64);
                assert(flagsp || !created3@ ==> at3(self.mem(), rootg, t3));
                assert(flagsp || !created2@ ==> at2(self.mem(), rootg, t2));
                assert({
                    let e = self.mem()[rootg][idx4@ as int];
                    entry_present(e) == (flagsp || !created3@) && !entry_huge(e)
                        && entry_address(e) == t3
                });
                assert({
                    let e = self.mem()[t3][idx3@ as int];
                    entry_present(e) == (flagsp || !created2@) && !entry_huge(e)
                        && entry_address(e) == t2
                });
                assert({
                    let e = self.mem()[t2][idx2@ as int];
                    entry_present(e) == (flagsp || !created1@) && !entry_huge(e)
                        && entry_address(e) == t1
                });
                lemma_extends_refl(m0);
                lemma_extends_refl(m_b);
                lemma_extends_trans(m0, m_b, self.mem());
            }
            let ghost m_c = self.mem();

            // Terminal level.
            let e1 = self.table_entry(t1, idx1);
            if e1.is_used() {
                proof {
                    assert(!created1@) by {
                        if created1@ {
                            assert(self.mem()[t1][idx1@ as int] == 0u64);
                        }
                    }
                    assert(*self == *old(self));
                    assert(terminal_word(m0, rootg, page) == Some(e1@)) by {
                        reveal(terminal_word);
                        reveal(normal_terminal_word);
                    }
                }
                return Err(MappingError::PageTableEntryAlreadyUsed);
            }
            let mut entry = e1;
            let f_start = f.start_address();
            entry.set_address(f_start, flags);
            let ghost w = entry@;
            proof {
                use_type_invariant(&f_start);
                Self::lemma_terminal_word_bits(fstart, flags@);
                assert(e1@ == 0u64);
                assert(w == fstart | flags@);
                assert(!entry_huge(w));
                assert(entry_present(w) == flagsp);
                assert(entry_address(w) == fstart);
                assert(!entry_present(self.mem()[t1][idx1@ as int])) by {
                    lemma_zero_word();
                }
            }
            let ghost tpos: int = if at1(self.mem(), rootg, t1) {
                1
            } else {
                0
            };
            let ghost pre = *self;
            self.set_table_entry(t1, idx1, entry);
            proof {
                lemma_terminal_write(m_c, self.mem(), rootg, t1, idx1@ as int, w, tpos);
                assert(self.spec_frame_allocator() == pre.spec_frame_allocator());
                assert(self.future_frames() == pre.future_frames());
                assert(self.mem().dom() == pre.mem().dom());
                lemma_wf4_table_ok(self.mem(), rootg);
                lemma_extends_refl(m0);
                lemma_extends_refl(m_c);
                lemma_extends_trans(m0, m_c, self.mem());
                assert forall|va: u64| walk(m0, rootg, va) is Some implies #[trigger] walk(
                    self.mem(),
                    rootg,
                    va,
                ) == walk(m0, rootg, va) by {
                    lemma_walk_monotone(m0, self.mem(), rootg, va);
                }
                // Terminal slot of the old view was empty or absent.
                assert(terminal_word(m0, rootg, page) is None || terminal_word(
                    m0,
                    rootg,
                    page,
                ) == Some(0u64)) by {
                    reveal(terminal_word);
                    reveal(normal_terminal_word);
                    if !created3@ && !created2@ && !created1@ {
                        assert(terminal_word(m0, rootg, page) == Some(0u64));
                    }
                }
                if no_huge_anywhere(m0) {
                    assert(no_huge_anywhere(m_c));
                    lemma_no_huge_update(m_c, self.mem(), t1, idx1@ as int, w);
                }
                // The new path translates the whole page when present.
                if flagsp {
                    assert(table_ok(self.mem(), t3));
                    assert({
                        let e = self.mem()[rootg][idx4@ as int];
                        entry_present(e) && !entry_huge(e) && entry_address(e) == t3
                    });
                    assert({
                        let e = self.mem()[t3][idx3@ as int];
                        entry_present(e) && !entry_huge(e) && entry_address(e) == t2
                    });
                    assert(table_ok(self.mem(), t2));
                    assert(table_ok(self.mem(), t1));
                    assert({
                        let e = self.mem()[t2][idx2@ as int];
                        entry_present(e) && !entry_huge(e) && entry_address(e) == t1
                    });
                    assert(self.mem()[t1][idx1@ as int] == w);
                    assert(idx4@ as int == l4_index_of(s) as int);
                    assert(idx3@ as int == l3_index_of(s) as int);
                    assert(idx2@ as int == l2_index_of(s) as int);
                    assert(idx1@ as int == l1_index_of(s) as int);
                    lemma_walk_range_normal(
                        self.mem(),
                        rootg,
                        t3,
                        t2,
                        t1,
                        s,
                        fstart,
                    );
                    assert(terminal_word(self.mem(), rootg, page) == Some(fstart | flags@)) by {
                        reveal(terminal_word);
                        reveal(normal_terminal_word);
                    }
                    assert forall|va: u64|
                        l4_index_of(va) == l4_index_of(s) && l3_index_of(va) == l3_index_of(s)
                            && l2_index_of(va) == l2_index_of(s) && l1_index_of(va)
                            != l1_index_of(s) implies #[trigger] normal_terminal_word(
                        self.mem(),
                        rootg,
                        va,
                    ) == (match normal_terminal_word(m0, rootg, va) {
                        Some(wv) => Some(wv),
                        None => Some(0u64),
                    }) by {
                        reveal(normal_terminal_word);
                        if created1@ {
                            assert(m_c[t1][l1_index_of(va) as int] == 0u64);
                            assert(self.mem()[t1][l1_index_of(va) as int] == 0u64);
                        } else {
                            assert(m_c == m0);
                            assert(self.mem()[t1][l1_index_of(va) as int] == m0[t1][l1_index_of(
                                va,
                            ) as int]);
                        }
                    }
                }
            }
            Ok(())
    }

    #[verifier::rlimit(100)]
    #[verifier::spinoff_prover]
    fn map_huge(
        &mut self,
        p: PageInner<Size2MiB>,
        f: PageFrameInner<Size2MiB>,
        flags: PageTableEntryFlags,
    ) -> (r: Result<(), MappingError>)
        requires
            old(self).wf(),
            map_path_ok(old(self).mem(), old(self).root(), Page::Huge(p)),
            Page::Huge(p) is Normal ==> flags@ & 0x80 != 0x80,
            old(self).spec_frame_allocator().spec_next() + 3 <= usize::MAX,
        ensures
            final(self).root() == old(self).root(),
            final(self).spec_offset() == old(self).spec_offset(),
            final(self).spec_frame_allocator().spec_regions() == old(self).spec_frame_allocator().spec_regions(),
            old(self).spec_frame_allocator().spec_next() <= final(self).spec_frame_allocator().spec_next() <= old(self).spec_frame_allocator().spec_next()
                + 3,
            match r {
                Err(MappingError::InvalidPageFrameMapping) => !same_size_class(Page::Huge(p), PageFrame::Huge(f)) && *final(self) == *old(self),
                Err(MappingError::PageTableEntryAlreadyUsed) => same_size_class(Page::Huge(p), PageFrame::Huge(f))
                    && *final(self) == *old(self) && (terminal_word(
                    old(self).mem(),
                    old(self).root(),
                    Page::Huge(p),
                ) matches Some(w) && w != 0u64),
                Err(MappingError::FrameAllocationFailed) => same_size_class(Page::Huge(p), PageFrame::Huge(f)) && final(self).wf() && extends_nonpresent(old(self).mem(), final(self).mem()) && final(self).spec_frame_allocator().spec_next() >= frame_seq(final(self).spec_frame_allocator().spec_regions()).len() && terminal_word(old(self).mem(), old(self).root(), Page::Huge(p)) is None && (forall|va: u64| Page::Huge(p).spec_start() <= va < Page::Huge(p).spec_start() + mapped_window(Page::Huge(p)) ==> #[trigger] walk(final(self).mem(), old(self).root(), va) is None) && (no_huge_anywhere(old(self).mem())
                    ==> no_huge_anywhere(final(self).mem())) && (forall|va: u64|
                    walk(old(self).mem(), old(self).root(), va) is Some ==> #[trigger] walk(
                        final(self).mem(),
                        old(self).root(),
                        va,
                    ) == walk(old(self).mem(), old(self).root(), va)),
                Ok(()) => same_size_class(Page::Huge(p), PageFrame::Huge(f)) && final(self).wf() && extends_nonpresent(
                    old(self).mem(),
                    final(self).mem(),
                ) && (terminal_word(old(self).mem(), old(self).root(), Page::Huge(p)) is None
                    || terminal_word(old(self).mem(), old(self).root(), Page::Huge(p)) == Some(0u64)) && (
                Page::Huge(p) is Normal && no_huge_anywhere(old(self).mem()) ==> no_huge_anywhere(
                    final(self).mem(),
                )) && (forall|va: u64|
                    walk(old(self).mem(), old(self).root(), va) is Some ==> #[trigger] walk(
                        final(self).mem(),
                        old(self).root(),
                        va,
                    ) == walk(old(self).mem(), old(self).root(), va)) && (flags@ & 0x1 == 0x1
                    ==> forall|va: u64|
                    Page::Huge(p).spec_start() <= va < Page::Huge(p).spec_start() + mapped_window(Page::Huge(p))
                        ==> #[trigger] walk(final(self).mem(), old(self).root(), va) == Some(
                        PageFrame::Huge(f).spec_start() + (va - Page::Huge(p).spec_start()),
                    )) && (flags@ & 0x1 == 0x1 ==> terminal_word(final(self).mem(), old(self).root(), Page::Huge(p)) == Some(PageFrame::Huge(f).spec_start() | (flags@ | 0x80u64))),
            },
            same_size_class(Page::Huge(p), PageFrame::Huge(f)) && (terminal_word(old(self).mem(), old(self).root(), Page::Huge(p)) matches Some(w) && w != 0u64) ==> r == Err::<(), MappingError>(MappingError::PageTableEntryAlreadyUsed),
            same_size_class(Page::Huge(p), PageFrame::Huge(f)) && (terminal_word(old(self).mem(), old(self).root(), Page::Huge(p)) is None || terminal_word(old(self).mem(), old(self).root(), Page::Huge(p)) == Some(0u64)) && old(self).spec_frame_allocator().spec_next() + 4 <= frame_seq(old(self).spec_frame_allocator().spec_regions()).len() ==> r is Ok,
    {
            proof {
                use_type_invariant(&p);
                use_type_invariant(&f);
                use_type_invariant(&flags);
            }
            let ghost page = Page::Huge(p);
            let ghost m0 = self.mem();
            let ghost rootg = self.root();
            let ghost s = p.spec_start();
            let ghost fstart = f.spec_start();
            let ghost flagsp = flags@ & 0x1 == 0x1;
            let root: u64 = self.l4_table_address.as_u64();
            let idx4 = p.p4_index();
            let idx3 = p.p3_index();
            proof {
                use_type_invariant(&idx4);
                use_type_invariant(&idx3);
            }

            // Level 4: find or create the level-3 table.
            proof {
                lemma_walk_step4(self.mem(), rootg, idx4@ as int);
            }
            let e4 = self.table_entry(root, idx4);
            let (t3, created3): (u64, Ghost<bool>) = match e4.frame(
                PageTableLevel::Level4,
            ) {
                Ok(fr) => {
                    let a = fr.start_address().as_u64();
                    proof {
                        assert(a == entry_address(e4@));
                        assert(at3(self.mem(), rootg, a));
                    }
                    (a, Ghost(false))
                },
                Err(_) => {
                    proof {
                        reveal(map_path_ok);
                        assert(!entry_huge(self.mem()[rootg][idx4@ as int]));
                    }
                    match self.ensure_child(root, idx4, flags, Ghost(4int)) {
                        Ok(c) => (c, Ghost(true)),
                        Err(e) => {
                            proof {
                                assert(self.future_frames() =~= Seq::<u64>::empty());
                                lemma_extends_refl(self.mem());
                                assert(self.spec_frame_allocator().spec_next() >= frame_seq(
                                    self.spec_frame_allocator().spec_regions(),
                                ).len());
                                assert(terminal_word(m0, rootg, page) is None) by {
                                    reveal(terminal_word);
                                    reveal(normal_terminal_word);
                                }
                                assert forall|va: u64| s <= va < s + 0x20_0000 implies walk(
                                    self.mem(),
                                    rootg,
                                    va,
                                ) is None by {
                                    lemma_same_indices_huge(s, va);
                                    reveal(walk);
                                }
                            }
                            return Err(e);
                        },
                    }
                },
            };
            proof {
                lemma_wf4_table_ok(self.mem(), rootg);
                lemma_levels_apart(self.mem(), rootg, t3);
                assert(table_ok(self.mem(), t3));
                assert(t3 != rootg);
                assert(!created3@ ==> *self == *old(self) && entry_present(
                    m0[rootg][idx4@ as int],
                ));
                assert(flagsp || !created3@ ==> at3(self.mem(), rootg, t3));
                assert(created3@ && !flagsp ==> !at3(self.mem(), rootg, t3) && !at2(
                    self.mem(),
                    rootg,
                    t3,
                ) && !at1(self.mem(), rootg, t3));
                assert(created3@ ==> forall|i: int|
                    0 <= i < 512 ==> self.mem()[t3][i] == 0u64);
                assert({
                    let e = self.mem()[rootg][idx4@ as int];
                    entry_present(e) == (flagsp || !created3@) && !entry_huge(e)
                        && entry_address(e) == t3
                });
            }
            let ghost m_a = self.mem();

            // Terminal level: the page's slot in the level-3 table.
            let e3 = self.table_entry(t3, idx3);
            if e3.is_used() {
                proof {
                    assert(!created3@) by {
                        if created3@ {
                            assert(self.mem()[t3][idx3@ as int] == 0u64);
                        }
                    }
                    assert(*self == *old(self));
                    assert(terminal_word(m0, rootg, page) == Some(e3@)) by {
                        reveal(terminal_word);
                    }
                }
                return Err(MappingError::PageTableEntryAlreadyUsed);
            }
            let mut entry = e3;
            let f_start = f.start_address();
            let hflags = flags.or(PageTableEntryFlags::huge_page());
            proof {
                use_type_invariant(&f_start);
                use_type_invariant(&hflags);
                Self::lemma_alignment_implies(fstart);
            }
            entry.set_address(f_start, hflags);
            let ghost w = entry@;
            proof {
                Self::lemma_terminal_word_bits(fstart, hflags@);
                let fl = flags@;
                assert((fl | 0x80u64) & 0x1 == fl & 0x1 && (fl | 0x80u64) & 0x80 == 0x80u64)
                    by (bit_vector);
                assert(e3@ == 0u64);
                assert(w == fstart | hflags@);
                assert(entry_huge(w));
                assert(entry_present(w) == flagsp);
                assert(entry_address(w) == fstart);
                assert(!entry_present(self.mem()[t3][idx3@ as int])) by {
                    lemma_zero_word();
                }
            }
            let ghost tpos: int = if at3(self.mem(), rootg, t3) {
                3
            } else {
                0
            };
            let ghost pre = *self;
            self.set_table_entry(t3, idx3, entry);
            proof {
                lemma_terminal_write(m_a, self.mem(), rootg, t3, idx3@ as int, w, tpos);
                assert(self.spec_frame_allocator() == pre.spec_frame_allocator());
                assert(self.future_frames() == pre.future_frames());
                assert(self.mem().dom() == pre.mem().dom());
                lemma_wf4_table_ok(self.mem(), rootg);
                lemma_extends_refl(m0);
                lemma_extends_refl(m_a);
                lemma_extends_trans(m0, m_a, self.mem());
                assert forall|va: u64| walk(m0, rootg, va) is Some implies #[trigger] walk(
                    self.mem(),
                    rootg,
                    va,
                ) == walk(m0, rootg, va) by {
                    lemma_walk_monotone(m0, self.mem(), rootg, va);
                }
                assert(terminal_word(m0, rootg, page) is None || terminal_word(
                    m0,
                    rootg,
                    page,
                ) == Some(0u64)) by {
                    reveal(terminal_word);
                    if !created3@ {
                        assert(terminal_word(m0, rootg, page) == Some(0u64));
                    }
                }
                if flagsp {
                    assert(table_ok(self.mem(), t3));
                    assert({
                        let e = self.mem()[rootg][idx4@ as int];
                        entry_present(e) && !entry_huge(e) && entry_address(e) == t3
                    });
                    assert(self.mem()[t3][idx3@ as int] == w);
                    lemma_walk_range_huge(self.mem(), rootg, t3, s, fstart);
                    assert(terminal_word(self.mem(), rootg, page) == Some(
                        fstart | (flags@ | 0x80u64),
                    )) by {
                        reveal(terminal_word);
                    }
                }
            }
            Ok(())
    }

    #[verifier::rlimit(100)]
    #[verifier::spinoff_prover]
    fn map_giant(
        &mut self,
        p: PageInner<Size1GiB>,
        f: PageFrameInner<Size1GiB>,
        flags: PageTableEntryFlags,
    ) -> (r: Result<(), MappingError>)
        requires
            old(self).wf(),
            map_path_ok(old(self).mem(), old(self).root(), Page::Giant(p)),
            Page::Giant(p) is Normal ==> flags@ & 0x80 != 0x80,
            old(self).spec_frame_allocator().spec_next() + 3 <= usize::MAX,
        ensures
            final(self).root() == old(self).root(),
            final(self).spec_offset() == old(self).spec_offset(),
            final(self).spec_frame_allocator().spec_regions() == old(self).spec_frame_allocator().spec_regions(),
            old(self).spec_frame_allocator().spec_next() <= final(self).spec_frame_allocator().spec_next() <= old(self).spec_frame_allocator().spec_next()
                + 3,
            match r {
                Err(MappingError::InvalidPageFrameMapping) => !same_size_class(Page::Giant(p), PageFrame::Giant(f)) && *final(self) == *old(self),
                Err(MappingError::PageTableEntryAlreadyUsed) => same_size_class(Page::Giant(p), PageFrame::Giant(f))
                    && *final(self) == *old(self) && (terminal_word(
                    old(self).mem(),
                    old(self).root(),
                    Page::Giant(p),
                ) matches Some(w) && w != 0u64),
                Err(MappingError::FrameAllocationFailed) => same_size_class(Page::Giant(p), PageFrame::Giant(f)) && final(self).wf() && extends_nonpresent(old(self).mem(), final(self).mem()) && final(self).spec_frame_allocator().spec_next() >= frame_seq(final(self).spec_frame_allocator().spec_regions()).len() && terminal_word(old(self).mem(), old(self).root(), Page::Giant(p)) is None && (forall|va: u64| Page::Giant(p).spec_start() <= va < Page::Giant(p).spec_start() + mapped_window(Page::Giant(p)) ==> #[trigger] walk(final(self).mem(), old(self).root(), va) is None) && (no_huge_anywhere(old(self).mem())
                    ==> no_huge_anywhere(final(self).mem())) && (forall|va: u64|
                    walk(old(self).mem(), old(self).root(), va) is Some ==> #[trigger] walk(
                        final(self).mem(),
                        old(self).root(),
                        va,
                    ) == walk(old(self).mem(), old(self).root(), va)),
                Ok(()) => same_size_class(Page::Giant(p), PageFrame::Giant(f)) && final(self).wf() && extends_nonpresent(
                    old(self).mem(),
                    final(self).mem(),
                ) && (terminal_word(old(self).mem(), old(self).root(), Page::Giant(p)) is None
                    || terminal_word(old(self).mem(), old(self).root(), Page::Giant(p)) == Some(0u64)) && (
                Page::Giant(p) is Normal && no_huge_anywhere(old(self).mem()) ==> no_huge_anywhere(
                    final(self).mem(),
                )) && (forall|va: u64|
                    walk(old(self).mem(), old(self).root(), va) is Some ==> #[trigger] walk(
                        final(self).mem(),
                        old(self).root(),
                        va,
                    ) == walk(old(self).mem(), old(self).root(), va)) && (flags@ & 0x1 == 0x1
                    ==> forall|va: u64|
                    Page::Giant(p).spec_start() <= va < Page::Giant(p).spec_start() + mapped_window(Page::Giant(p))
                        ==> #[trigger] walk(final(self).mem(), old(self).root(), va) == Some(
                        PageFrame::Giant(f).spec_start() + (va - Page::Giant(p).spec_start()),
                    )) && (flags@ & 0x1 == 0x1 ==> terminal_word(final(self).mem(), old(self).root(), Page::Giant(p)) == Some(PageFrame::Giant(f).spec_start() | (flags@ | 0x80u64))),
            },
            same_size_class(Page::Giant(p), PageFrame::Giant(f)) && (terminal_word(old(self).mem(), old(self).root(), Page::Giant(p)) matches Some(w) && w != 0u64) ==> r == Err::<(), MappingError>(MappingError::PageTableEntryAlreadyUsed),
            same_size_class(Page::Giant(p), PageFrame::Giant(f)) && (terminal_word(old(self).mem(), old(self).root(), Page::Giant(p)) is None || terminal_word(old(self).mem(), old(self).root(), Page::Giant(p)) == Some(0u64)) && old(self).spec_frame_allocator().spec_next() + 4 <= frame_seq(old(self).spec_frame_allocator().spec_regions()).len() ==> r is Ok,
    {
            proof {
                use_type_invariant(&p);
                use_type_invariant(&f);
                use_type_invariant(&flags);
            }
            let ghost page = Page::Giant(p);
            let ghost m0 = self.mem();
            let ghost rootg = self.root();
            let ghost s = p.spec_start();
            let ghost fstart = f.spec_start();
            let ghost flagsp = flags@ & 0x1 == 0x1;
            let root: u64 = self.l4_table_address.as_u64();
            let idx4 = p.p4_index();
            let idx3 = p.p3_index();
            let idx2 = p.p2_index();
            proof {
                use_type_invariant(&idx4);
                use_type_invariant(&idx3);
                use_type_invariant(&idx2);
            }

            // Level 4: find or create the level-3 table.
            proof {
                lemma_walk_step4(self.mem(), rootg, idx4@ as int);
            }
            let e4 = self.table_entry(root, idx4);
            let (t3, created3): (u64, Ghost<bool>) = match e4.frame(
                PageTableLevel::Level4,
            ) {
                Ok(fr) => {
                    let a = fr.start_address().as_u64();
                    proof {
                        assert(a == entry_address(e4@));
                        assert(at3(self.mem(), rootg, a));
                    }
                    (a, Ghost(false))
                },
                Err(_) => {
                    proof {
                        reveal(map_path_ok);
                        assert(!entry_huge(self.mem()[rootg][idx4@ as int]));
                    }
                    match self.ensure_child(root, idx4, flags, Ghost(4int)) {
                        Ok(c) => (c, Ghost(true)),
                        Err(e) => {
                            proof {
                                assert(self.future_frames() =~= Seq::<u64>::empty());
                                lemma_extends_refl(self.mem());
                                assert(self.spec_frame_allocator().spec_next() >= frame_seq(
                                    self.spec_frame_allocator().spec_regions(),
                                ).len());
                                assert(terminal_word(m0, rootg, page) is None) by {
                                    reveal(terminal_word);
                                    reveal(normal_terminal_word);
                                }
                                assert forall|va: u64| s <= va < s + 0x20_0000 implies walk(
                                    self.mem(),
                                    rootg,
                                    va,
                                ) is None by {
                                    lemma_same_indices_giant(s, va);
                                    reveal(walk);
                                }
                            }
                            return Err(e);
                        },
                    }
                },
            };
            proof {
                lemma_wf4_table_ok(self.mem(), rootg);
                lemma_levels_apart(self.mem(), rootg, t3);
                assert(table_ok(self.mem(), t3));
                assert(t3 != rootg);
                assert(!created3@ ==> *self == *old(self) && entry_present(
                    m0[rootg][idx4@ as int],
                ));
                assert(flagsp || !created3@ ==> at3(self.mem(), rootg, t3));
                assert(created3@ && !flagsp ==> !at3(self.mem(), rootg, t3) && !at2(
                    self.mem(),
                    rootg,
                    t3,
                ));
                assert(created3@ ==> forall|i: int|
                    0 <= i < 512 ==> self.mem()[t3][i] == 0u64);
                assert({
                    let e = self.mem()[rootg][idx4@ as int];
                    entry_present(e) == (flagsp || !created3@) && !entry_huge(e)
                        && entry_address(e) == t3
                });
            }
            let ghost m_a = self.mem();

            // Level 3: find or create the level-2 table.
            let e3 = self.table_entry(t3, idx3);
            proof {
                assert(!entry_huge(e3@)) by {
                    reveal(map_path_ok);
                    if created3@ {
                        assert(e3@ == 0u64);
                        lemma_zero_word();
                    } else {
                        assert(e3@ == m0[entry_address(m0[rootg][idx4@ as int])][idx3@
                            as int]);
                    }
                }
            }
            let ghost pos3: int = if at3(self.mem(), rootg, t3) {
                3
            } else {
                0
            };
            let (t2, created2): (u64, Ghost<bool>) = match e3.frame(
                PageTableLevel::Level3,
            ) {
                Ok(fr) => {
                    let a = fr.start_address().as_u64();
                    proof {
                        lemma_zero_word();
                        assert(!created3@);
                        assert(a == entry_address(e3@));
                        lemma_walk_step3(self.mem(), rootg, t3, idx3@ as int);
                        assert(at2(self.mem(), rootg, a));
                    }
                    (a, Ghost(false))
                },
                Err(_) => {
                    match self.ensure_child(t3, idx3, flags, Ghost(pos3)) {
                        Ok(c) => (c, Ghost(true)),
                        Err(e) => {
                            proof {
                                assert(self.future_frames() =~= Seq::<u64>::empty());
                                lemma_extends_refl(m0);
                                lemma_extends_refl(m_a);
                                lemma_extends_refl(self.mem());
                                lemma_extends_trans(m0, m_a, self.mem());
                                assert(self.spec_frame_allocator().spec_next() >= frame_seq(
                                    self.spec_frame_allocator().spec_regions(),
                                ).len());
                                assert(terminal_word(m0, rootg, page) is None) by {
                                    reveal(terminal_word);
                                    reveal(normal_terminal_word);
                                }
                                assert forall|va: u64| s <= va < s + 0x20_0000 implies walk(
                                    self.mem(),
                                    rootg,
                                    va,
                                ) is None by {
                                    lemma_same_indices_giant(s, va);
                                    reveal(walk);
                                }
                                assert forall|va: u64|
                                    walk(m0, rootg, va) is Some implies #[trigger] walk(
                                    self.mem(),
                                    rootg,
                                    va,
                                ) == walk(m0, rootg, va) by {
                                    lemma_walk_monotone(m0, self.mem(), rootg, va);
                                }
                            }
                            return Err(e);
                        },
                    }
                },
            };
            proof {
                lemma_wf4_table_ok(self.mem(), rootg);
                lemma_levels_apart(self.mem(), rootg, t2);
                lemma_levels_apart(self.mem(), rootg, t3);
                assert(table_ok(self.mem(), t2));
                assert(table_ok(self.mem(), t3));
                assert(t2 != rootg && t2 != t3);
                assert(!created2@ ==> !created3@ && *self == *old(self));
                assert(flagsp || !created2@ ==> at2(self.mem(), rootg, t2));
                assert(created2@ && !flagsp ==> !at3(self.mem(), rootg, t2) && !at2(
                    self.mem(),
                    rootg,
                    t2,
                ) && !at1(self.mem(), rootg, t2));
                assert(created2@ ==> forall|i: int|
                    0 <= i < 512 ==> self.mem()[t2][i] == 0u64);
                assert(flagsp || !created3@ ==> at3(self.mem(), rootg, t3));
                assert({
                    let e = self.mem()[rootg][idx4@ as int];
                    entry_present(e) == (flagsp || !created3@) && !entry_huge(e)
                        && entry_address(e) == t3
                });
                assert({
                    let e = self.mem()[t3][idx3@ as int];
                    entry_present(e) == (flagsp || !created2@) && !entry_huge(e)
                        && entry_address(e) == t2
                });
                lemma_extends_refl(m0);
                lemma_extends_refl(m_a);
                lemma_extends_trans(m0, m_a, self.mem());
            }
            let ghost m_b = self.mem();

            // Terminal level: the page's slot in the level-2 table.
            let e2 = self.table_entry(t2, idx2);
            if e2.is_used() {
                proof {
                    assert(!created2@) by {
                        if created2@ {
                            assert(self.mem()[t2][idx2@ as int] == 0u64);
                        }
                    }
                    assert(*self == *old(self));
                    assert(terminal_word(m0, rootg, page) == Some(e2@)) by {
                        reveal(terminal_word);
                    }
                }
                return Err(MappingError::PageTableEntryAlreadyUsed);
            }
            let mut entry = e2;
            let f_start = f.start_address();
            let hflags = flags.or(PageTableEntryFlags::huge_page());
            proof {
                use_type_invariant(&f_start);
                use_type_invariant(&hflags);
                Self::lemma_alignment_implies(fstart);
            }
            entry.set_address(f_start, hflags);
            let ghost w = entry@;
            proof {
                Self::lemma_terminal_word_bits(fstart, hflags@);
                let fl = flags@;
                assert((fl | 0x80u64) & 0x1 == fl & 0x1 && (fl | 0x80u64) & 0x80 == 0x80u64)
                    by (bit_vector);
                assert(e2@ == 0u64);
                assert(w == fstart | hflags@);
                assert(entry_huge(w));
                assert(entry_present(w) == flagsp);
                assert(entry_address(w) == fstart);
                assert(!entry_present(self.mem()[t2][idx2@ as int])) by {
                    lemma_zero_word();
                }
            }
            let ghost tpos: int = if at2(self.mem(), rootg, t2) {
                2
            } else {
                0
            };
            let ghost pre = *self;
            self.set_table_entry(t2, idx2, entry);
            proof {
                lemma_terminal_write(m_b, self.mem(), rootg, t2, idx2@ as int, w, tpos);
                assert(self.spec_frame_allocator() == pre.spec_frame_allocator());
                assert(self.future_frames() == pre.future_frames());
                assert(self.mem().dom() == pre.mem().dom());
                lemma_wf4_table_ok(self.mem(), rootg);
                lemma_extends_refl(m0);
                lemma_extends_refl(m_b);
                lemma_extends_trans(m0, m_b, self.mem());
                assert forall|va: u64| walk(m0, rootg, va) is Some implies #[trigger] walk(
                    self.mem(),
                    rootg,
                    va,
                ) == walk(m0, rootg, va) by {
                    lemma_walk_monotone(m0, self.mem(), rootg, va);
                }
                assert(terminal_word(m0, rootg, page) is None || terminal_word(
                    m0,
                    rootg,
                    page,
                ) == Some(0u64)) by {
                    reveal(terminal_word);
                    if !created3@ && !created2@ {
                        assert(terminal_word(m0, rootg, page) == Some(0u64));
                    }
                }
                if flagsp {
                    assert(table_ok(self.mem(), t3));
                    assert({
                        let e = self.mem()[rootg][idx4@ as int];
                        entry_present(e) && !entry_huge(e) && entry_address(e) == t3
                    });
                    assert(table_ok(self.mem(), t2));
                    assert({
                        let e = self.mem()[t3][idx3@ as int];
                        entry_present(e) && !entry_huge(e) && entry_address(e) == t2
                    });
                    assert(self.mem()[t2][idx2@ as int] == w);
                    lemma_walk_range_giant(self.mem(), rootg, t3, t2, s, fstart);
                    assert(terminal_word(self.mem(), rootg, page) == Some(
                        fstart | (flags@ | 0x80u64),
                    )) by {
                        reveal(terminal_word);
                    }
                }
            }
            Ok(())
    }

    /// Install a mapping of `page` onto `frame` with the given flags.
    ///
    /// The walk from the root is extended downward; absent intermediate
    /// tables are allocated, zeroed and linked in with the flags reduced
    /// to present, writable and user-accessible. Mismatched size classes
    /// are rejected; a terminal slot that already carries data is
    /// rejected without changing anything, since silently remapping would
    /// alias the old translation; and running out of frames aborts the
    /// attempt, leaving every existing translation intact. A normal
    /// mapping must not carry the huge flag: the hardware never accepts
    /// a huge entry in a level-1 table.
    ///
    /// On success, and when the flags include the present bit, the
    /// mapped window of the page translates exactly onto the frame, and
    /// every translation that existed before is unchanged.
    ///
    /// On real hardware the freshly mapped address must then be flushed
    /// from the translation cache, or a stale cached translation may
    /// still be served; that privileged instruction lives outside this
    /// library, and the unverified shell pairs it with every successful
    /// call.
    pub fn map_to(
        &mut self,
        page: Page,
        frame: PageFrame,
        flags: PageTableEntryFlags,
    ) -> (r: Result<(), MappingError>)
        requires
            old(self).wf(),
            map_path_ok(old(self).mem(), old(self).root(), page),
            page is Normal ==> flags@ & 0x80 != 0x80,
            old(self).spec_frame_allocator().spec_next() + 3 <= usize::MAX,
        ensures
            final(self).root() == old(self).root(),
            final(self).spec_offset() == old(self).spec_offset(),
            final(self).spec_frame_allocator().spec_regions() == old(self).spec_frame_allocator().spec_regions(),
            old(self).spec_frame_allocator().spec_next() <= final(self).spec_frame_allocator().spec_next() <= old(self).spec_frame_allocator().spec_next()
                + 3,
            match r {
                Err(MappingError::InvalidPageFrameMapping) => !same_size_class(page, frame) && *final(self) == *old(self),
                Err(MappingError::PageTableEntryAlreadyUsed) => same_size_class(page, frame)
                    && *final(self) == *old(self) && (terminal_word(
                    old(self).mem(),
                    old(self).root(),
                    page,
                ) matches Some(w) && w != 0u64),
                Err(MappingError::FrameAllocationFailed) => same_size_class(page, frame) && final(self).wf() && extends_nonpresent(old(self).mem(), final(self).mem()) && final(self).spec_frame_allocator().spec_next() >= frame_seq(final(self).spec_frame_allocator().spec_regions()).len() && terminal_word(old(self).mem(), old(self).root(), page) is None && (forall|va: u64| page.spec_start() <= va < page.spec_start() + mapped_window(page) ==> #[trigger] walk(final(self).mem(), old(self).root(), va) is None) && (no_huge_anywhere(old(self).mem())
                    ==> no_huge_anywhere(final(self).mem())) && (forall|va: u64|
                    walk(old(self).mem(), old(self).root(), va) is Some ==> #[trigger] walk(
                        final(self).mem(),
                        old(self).root(),
                        va,
                    ) == walk(old(self).mem(), old(self).root(), va)),
                Ok(()) => same_size_class(page, frame) && final(self).wf() && extends_nonpresent(
                    old(self).mem(),
                    final(self).mem(),
                ) && (terminal_word(old(self).mem(), old(self).root(), page) is None
                    || terminal_word(old(self).mem(), old(self).root(), page) == Some(0u64)) && (
                page is Normal && no_huge_anywhere(old(self).mem()) ==> no_huge_anywhere(
                    final(self).mem(),
                )) && (forall|va: u64|
                    walk(old(self).mem(), old(self).root(), va) is Some ==> #[trigger] walk(
                        final(self).mem(),
                        old(self).root(),
                        va,
                    ) == walk(old(self).mem(), old(self).root(), va)) && (flags@ & 0x1 == 0x1
                    ==> forall|va: u64|
                    page.spec_start() <= va < page.spec_start() + mapped_window(page)
                        ==> #[trigger] walk(final(self).mem(), old(self).root(), va) == Some(
                        frame.spec_start() + (va - page.spec_start()),
                    )) && (flags@ & 0x1 == 0x1 ==> terminal_word(final(self).mem(), old(self).root(), page) == Some((match page { Page::Normal(_) => frame.spec_start() | flags@, _ => frame.spec_start() | (flags@ | 0x80u64) }))) && (page is Normal && flags@ & 0x1 == 0x1 ==> forall|va: u64| l4_index_of(va) == l4_index_of(page.spec_start()) && l3_index_of(va) == l3_index_of(page.spec_start()) && l2_index_of(va) == l2_index_of(page.spec_start()) && l1_index_of(va) != l1_index_of(page.spec_start()) ==> #[trigger] normal_terminal_word(final(self).mem(), old(self).root(), va) == (match normal_terminal_word(old(self).mem(), old(self).root(), va) { Some(wv) => Some(wv), None => Some(0u64) })),
            },
            same_size_class(page, frame) && (terminal_word(old(self).mem(), old(self).root(), page) matches Some(w) && w != 0u64) ==> r == Err::<(), MappingError>(MappingError::PageTableEntryAlreadyUsed),
            same_size_class(page, frame) && (terminal_word(old(self).mem(), old(self).root(), page) is None || terminal_word(old(self).mem(), old(self).root(), page) == Some(0u64)) && old(self).spec_frame_allocator().spec_next() + 4 <= frame_seq(old(self).spec_frame_allocator().spec_regions()).len() ==> r is Ok,
    {
        match (page, frame) {
            (Page::Normal(p), PageFrame::Normal(f)) => self.map_normal(p, f, flags),
            (Page::Huge(p), PageFrame::Huge(f)) => self.map_huge(p, f, flags),
            (Page::Giant(p), PageFrame::Giant(f)) => self.map_giant(p, f, flags),
            _ => Err(MappingError::InvalidPageFrameMapping),
        }
    }


    /// Takes the next frame from the allocator, keeping the mapper's
    /// invariant: the frame handed out leaves the fresh suffix, so it may
    /// be used freely (for example as heap backing) without ever aliasing
    /// a page table.
    pub fn allocate_frame(&mut self) -> (r: Option<PageFrame>)
        requires
            old(self).wf(),
            old(self).spec_frame_allocator().spec_next() < usize::MAX,
        ensures
            final(self).wf(),
            final(self).mem() == old(self).mem(),
            final(self).root() == old(self).root(),
            final(self).spec_offset() == old(self).spec_offset(),
            final(self).spec_frame_allocator().spec_regions() == old(
                self,
            ).spec_frame_allocator().spec_regions(),
            final(self).spec_frame_allocator().spec_next() == old(
                self,
            ).spec_frame_allocator().spec_next() + 1,
            match r {
                Some(f) => old(self).spec_frame_allocator().spec_next() < frame_seq(
                    old(self).spec_frame_allocator().spec_regions(),
                ).len() && f is Normal && f.spec_start() == frame_seq(
                    old(self).spec_frame_allocator().spec_regions(),
                )[old(self).spec_frame_allocator().spec_next()] && f.spec_start() % 4096 == 0
                    && !old(self).mem().dom().contains(f.spec_start()),
                None => old(self).spec_frame_allocator().spec_next() >= frame_seq(
                    old(self).spec_frame_allocator().spec_regions(),
                ).len(),
            },
    {
        let ghost m1 = self.mem();
        let r = self.frame_allocator.allocate_normal_frame();
        proof {
            assert(self.mem() =~= m1);
            if r is Some {
                let frames = frame_seq(old(self).spec_frame_allocator().spec_regions());
                let n = old(self).spec_frame_allocator().spec_next();
                assert(old(self).future_frames() == frames.skip(n));
                assert(old(self).future_frames()[0] == frames[n]);
                assert(self.future_frames() == old(self).future_frames().skip(1));
                assert(forall|j: int|
                    0 <= j < self.future_frames().len() ==> #[trigger] self.future_frames()[j]
                        == old(self).future_frames()[j + 1]);
            } else {
                assert(self.future_frames() =~= Seq::<u64>::empty());
            }
        }
        r
    }

    /// The frames the allocator can still hand out are pairwise
    /// distinct: no physical frame is ever handed out twice.
    pub proof fn lemma_remaining_frames_distinct(&self)
        requires
            self.wf(),
        ensures
            forall|j1: int, j2: int|
                self.spec_frame_allocator().spec_next() <= j1 < j2 < frame_seq(
                    self.spec_frame_allocator().spec_regions(),
                ).len() ==> #[trigger] frame_seq(self.spec_frame_allocator().spec_regions())[j1]
                    != #[trigger] frame_seq(self.spec_frame_allocator().spec_regions())[j2],
    {
        let frames = frame_seq(self.spec_frame_allocator().spec_regions());
        let n = self.spec_frame_allocator().spec_next();
        if n <= frames.len() {
            assert(self.future_frames() == frames.skip(n));
            assert forall|j1: int, j2: int| n <= j1 < j2 < frames.len() implies frames[j1]
                != frames[j2] by {
                assert(self.future_frames()[j1 - n] == frames[j1]);
                assert(self.future_frames()[j2 - n] == frames[j2]);
            }
        }
    }

    /// With no huge entry anywhere in the tables, every page's path is
    /// clear for mapping.
    pub proof fn lemma_path_clear(&self, page: Page)
        requires
            self.wf(),
            no_huge_anywhere(self.mem()),
        ensures
            map_path_ok(self.mem(), self.root(), page),
    {
        lemma_no_huge_path_ok(self.mem(), self.root(), page);
    }

    /// The fixed virtual address at which physical memory is mapped.
    pub fn physical_memory_offset(&self) -> (r: VirtualAddress)
        ensures
            r@ == self.spec_offset(),
    {
        self.physical_memory_offset
    }

    /// Reads one entry of the table at physical address `table`.
    fn table_entry(&self, table: u64, index: PageTableIndex) -> (r: PageTableEntry)
        requires
            table_ok(self.mem(), table),
        ensures
            r@ == self.mem()[table][index@ as int],
    {
        match self.tables.get(&table) {
            Some(t) => t.entry_at(index),
            None => {
                proof {
                    assert(false);
                }
                PageTableEntry::new()
            },
        }
    }

    /// Return the physical address that the given virtual address is
    /// mapped to, or `None` if there is no valid mapping: the result of
    /// the four-level walk, with huge and giant pages short-circuiting at
    /// their level.
    pub fn translate_address(&self, address: VirtualAddress) -> (r: Option<PhysicalAddress>)
        requires
            self.wf(),
        ensures
            match r {
                Some(p) => walk(self.mem(), self.root(), address@) == Some(p@ as int),
                None => walk(self.mem(), self.root(), address@) is None,
            },
    {
        proof {
            reveal(wf4);
            reveal(wf3);
            reveal(wf2);
            reveal(wf1);
            reveal(walk);
        }
        let root: u64 = self.l4_table_address.as_u64();

        let e4 = self.table_entry(root, address.p4_index());
        let l4_frame: PageFrame = match e4.frame(PageTableLevel::Level4) {
            Ok(f) => f,
            Err(_) => { return None },
        };

        let t3: u64 = l4_frame.start_address().as_u64();
        let e3 = self.table_entry(t3, address.p3_index());
        let l3_frame: PageFrame = match e3.frame(PageTableLevel::Level3) {
            Ok(f) => f,
            Err(_) => { return None },
        };
        if l3_frame.is_huge() {
            return Some(l3_frame.convert(address));
        }

        let t2: u64 = l3_frame.start_address().as_u64();
        let e2 = self.table_entry(t2, address.p2_index());
        let l2_frame: PageFrame = match e2.frame(PageTableLevel::Level2) {
            Ok(f) => f,
            Err(_) => { return None },
        };
        if l2_frame.is_huge() {
            return Some(l2_frame.convert(address));
        }

        let t1: u64 = l2_frame.start_address().as_u64();
        let e1 = self.table_entry(t1, address.p1_index());
        let l1_frame: PageFrame = match e1.frame(PageTableLevel::Level1) {
            Ok(f) => f,
            Err(_) => { return None },
        };

        Some(l1_frame.convert(address))
    }
}

/// One frame address of a bounded region is 4 KiB-aligned and below the
/// region end.
proof fn lemma_region_frame_aligned(r: crate::frame_allocator::MemoryRegion, k: int)
    requires
        0 <= k < crate::frame_allocator::region_frame_count(r),
        r.start <= crate::address::PHYSICAL_ADDRESS_LIMIT,
        r.end <= crate::address::PHYSICAL_ADDRESS_LIMIT,
    ensures
        crate::frame_allocator::region_frame(r, k) % 4096 == 0,
        crate::frame_allocator::region_frame(r, k) < r.end,
{
    let count = crate::frame_allocator::region_frame_count(r);
    let d = r.end - r.start;
    assert(count == (d + 4095) / 4096 && d >= 1 ==> 4096 * (count - 1) < d) by (nonlinear_arith);
    assert(4096 * k <= 4096 * (count - 1)) by (nonlinear_arith)
        requires
            k <= count - 1,
    ;
    let a = r.start + 4096 * k;
    assert(0 <= a && a < r.end);
    assert(0 <= a <= 0xffff_ffff_ffff_ffff ==> ((a - a % 4096) as u64) % 4096 == 0 && (a - a
        % 4096) as u64 <= a) by (nonlinear_arith);
}

/// Every frame address a bounded memory map yields is 4 KiB-aligned.
proof fn lemma_frame_seq_aligned(regions: Seq<crate::frame_allocator::MemoryRegion>)
    requires
        forall|i: int|
            0 <= i < regions.len() ==> (#[trigger] regions[i]).start
                <= crate::address::PHYSICAL_ADDRESS_LIMIT && regions[i].end
                <= crate::address::PHYSICAL_ADDRESS_LIMIT,
    ensures
        forall|j: int|
            0 <= j < frame_seq(regions).len() ==> (#[trigger] frame_seq(regions)[j]) % 4096 == 0,
    decreases regions.len(),
{
    if regions.len() > 0 {
        assert(forall|i: int|
            0 <= i < regions.drop_first().len() ==> #[trigger] regions.drop_first()[i]
                == regions[i + 1]);
        lemma_frame_seq_aligned(regions.drop_first());
        let head = crate::frame_allocator::region_frames(regions[0]);
        let rest = frame_seq(regions.drop_first());
        assert forall|j: int|
            0 <= j < frame_seq(regions).len() implies (#[trigger] frame_seq(regions)[j]) % 4096
            == 0 by {
            if j < head.len() {
                lemma_region_frame_aligned(regions[0], j);
                assert(frame_seq(regions)[j] == head[j]);
            } else {
                assert(frame_seq(regions)[j] == rest[j - head.len()]);
            }
        }
    }
}

} // verus!
