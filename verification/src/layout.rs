//! The layout engine: size and alignment of registered types under three
//! packing strategies, and the search over member orderings that minimizes
//! the padded size of a struct.
//!
//! All quantities are first defined as specification functions over the
//! registry's mathematical view.  Recursion into member types terminates
//! because a well-formed registry only lets an entry refer to strictly
//! earlier entries; every definition below therefore carries the bound `b`
//! below which its member references must resolve.

use crate::type_system::{
    contains_name, idx_of, lemma_idx_of, name_before, reg_wf, type_ok, valid_type, Atomic, Name,
    RegView, Struct, Type, TypeList, TypeManager, TypeV, Union,
};
use crate::utils::{
    lcm_nat, lemma_lcm_bounds, lemma_perm_seqs_complete, lemma_perm_seqs_len,
    lemma_perm_seqs_multiset, perm_seqs,
};
use vstd::prelude::*;

verus! {

/// The three layout strategies.
#[derive(Clone, Copy, Debug, PartialEq, Eq, Structural)]
pub enum Mode {
    /// Natural layout: members in declared order, padding inserted so each
    /// member sits on a multiple of its own alignment.
    Unpacked,
    /// No padding: members packed back to back.
    Packed,
    /// Natural layout rules, but over the member ordering, among all
    /// permutations, that minimizes the resulting size.
    Optimized,
}

/// The next multiple of `a` at or above `off` (or `off` itself when `a` is
/// zero).
pub open spec fn round_up(off: nat, a: nat) -> nat {
    if a == 0 {
        off
    } else if off % a == 0 {
        off
    } else {
        (off + a - off % a) as nat
    }
}

/// The size of the member named `n`, which must resolve below `b`.
pub open spec fn member_size(entries: RegView, n: Seq<char>, b: int, mode: Mode) -> nat
    decreases b, 2int, 0int,
{
    if name_before(entries, n, b) {
        size_at(entries, idx_of(entries, n), mode)
    } else {
        0
    }
}

/// The alignment of the member named `n`, which must resolve below `b`.
pub open spec fn member_align(entries: RegView, n: Seq<char>, b: int, mode: Mode) -> nat
    decreases b, 2int, 0int,
{
    if name_before(entries, n, b) {
        align_at(entries, idx_of(entries, n), mode)
    } else {
        0
    }
}

/// The sum of the packed sizes of the named members.
pub open spec fn packed_sum(entries: RegView, names: Seq<Seq<char>>, b: int) -> nat
    decreases b, 2int, names.len(),
{
    if names.len() == 0 {
        0
    } else {
        packed_sum(entries, names.drop_last(), b) + member_size(
            entries,
            names.last(),
            b,
            Mode::Packed,
        )
    }
}

/// The offset reached after placing the named members in order, padding
/// each to its own alignment first: the struct size under natural layout
/// rules, with member sizes and alignments taken under `mode`.
pub open spec fn placed_end(entries: RegView, names: Seq<Seq<char>>, b: int, mode: Mode) -> nat
    decreases b, 2int, names.len(),
{
    if names.len() == 0 {
        0
    } else {
        let off = placed_end(entries, names.drop_last(), b, mode);
        round_up(off, member_align(entries, names.last(), b, mode)) + member_size(
            entries,
            names.last(),
            b,
            mode,
        )
    }
}

/// The largest size among the named members, under `mode`.
pub open spec fn max_size(entries: RegView, names: Seq<Seq<char>>, b: int, mode: Mode) -> nat
    decreases b, 2int, names.len(),
{
    if names.len() == 0 {
        0
    } else {
        let prev = max_size(entries, names.drop_last(), b, mode);
        let s = member_size(entries, names.last(), b, mode);
        if s > prev {
            s
        } else {
            prev
        }
    }
}

/// The least common multiple of the named members' alignments, folded left
/// to right from 1.
pub open spec fn lcm_fold(entries: RegView, names: Seq<Seq<char>>, b: int, mode: Mode) -> nat
    decreases b, 2int, names.len(),
{
    if names.len() == 0 {
        1
    } else {
        lcm_nat(
            lcm_fold(entries, names.drop_last(), b, mode),
            member_align(entries, names.last(), b, mode),
        )
    }
}

/// The largest packed size among those members whose size under `mode`
/// equals `target`.
pub open spec fn tied_packed(
    entries: RegView,
    names: Seq<Seq<char>>,
    b: int,
    mode: Mode,
    target: nat,
) -> nat
    decreases b, 2int, names.len(),
{
    if names.len() == 0 {
        0
    } else {
        let prev = tied_packed(entries, names.drop_last(), b, mode, target);
        let cand = if member_size(entries, names.last(), b, mode) == target {
            member_size(entries, names.last(), b, Mode::Packed)
        } else {
            0
        };
        if cand > prev {
            cand
        } else {
            prev
        }
    }
}

/// The best candidate ordering and its placed size: the candidates are
/// walked left to right and a later one replaces the current best only when
/// it is strictly smaller, so the first of several tied candidates wins.
pub open spec fn best_pair(entries: RegView, cands: Seq<Seq<Seq<char>>>, b: int) -> (
    Seq<Seq<char>>,
    nat,
)
    decreases b, 3int, cands.len(),
{
    if cands.len() == 0 {
        (Seq::<Seq<char>>::empty(), 0)
    } else if cands.len() == 1 {
        (cands[0], placed_end(entries, cands[0], b, Mode::Optimized))
    } else {
        let prev = best_pair(entries, cands.drop_last(), b);
        let e = placed_end(entries, cands.last(), b, Mode::Optimized);
        if e < prev.1 {
            (cands.last(), e)
        } else {
            prev
        }
    }
}

/// A struct's size under each mode: the packed sum, the placed size in
/// declared order, or the smallest placed size over all member orderings.
pub open spec fn struct_size(entries: RegView, members: Seq<Seq<char>>, b: int, mode: Mode) -> nat
    decreases b, 4int, 0int,
{
    match mode {
        Mode::Packed => packed_sum(entries, members, b),
        Mode::Unpacked => placed_end(entries, members, b, Mode::Unpacked),
        Mode::Optimized => best_pair(entries, perm_seqs(members), b).1,
    }
}

/// A struct's alignment: the alignment of its first member — under the
/// optimized mode, the first member of the winning ordering.
pub open spec fn struct_align(entries: RegView, members: Seq<Seq<char>>, b: int, mode: Mode) -> nat
    decreases b, 4int, 0int,
{
    match mode {
        Mode::Optimized => {
            let win = best_pair(entries, perm_seqs(members), b).0;
            if win.len() > 0 {
                member_align(entries, win[0], b, Mode::Optimized)
            } else {
                0
            }
        },
        _ => if members.len() > 0 {
            member_align(entries, members[0], b, mode)
        } else {
            0
        },
    }
}

/// A union's alignment: 1 for a single variant (the fold over adjacent
/// pairs has no pair to combine), otherwise the least common multiple of
/// all the variants' alignments.
pub open spec fn union_align(entries: RegView, variants: Seq<Seq<char>>, b: int, mode: Mode) -> nat
    decreases b, 4int, 0int,
{
    if variants.len() == 1 {
        1
    } else {
        lcm_fold(entries, variants, b, mode)
    }
}

/// The size of the registry entry at index `i` under `mode`.
pub open spec fn size_at(entries: RegView, i: int, mode: Mode) -> nat
    decreases i, 5int, 0int,
{
    if 0 <= i < entries.len() {
        match entries[i].1 {
            TypeV::Atomic { rep, align } => rep,
            TypeV::Struct { members } => struct_size(entries, members, i, mode),
            TypeV::Union { variants } => max_size(entries, variants, i, mode),
        }
    } else {
        0
    }
}

/// The alignment of the registry entry at index `i` under `mode`.
pub open spec fn align_at(entries: RegView, i: int, mode: Mode) -> nat
    decreases i, 5int, 0int,
{
    if 0 <= i < entries.len() {
        match entries[i].1 {
            TypeV::Atomic { rep, align } => align,
            TypeV::Struct { members } => struct_align(entries, members, i, mode),
            TypeV::Union { variants } => union_align(entries, variants, i, mode),
        }
    } else {
        0
    }
}

/// The size of a definition whose references resolve anywhere in the
/// registry.
pub open spec fn size_of_type(entries: RegView, t: TypeV, mode: Mode) -> nat
    decreases entries.len(), 6int, 0int,
{
    match t {
        TypeV::Atomic { rep, align } => rep,
        TypeV::Struct { members } => struct_size(entries, members, entries.len() as int, mode),
        TypeV::Union { variants } => max_size(entries, variants, entries.len() as int, mode),
    }
}

/// The alignment of a definition whose references resolve anywhere in the
/// registry.
pub open spec fn align_of_type(entries: RegView, t: TypeV, mode: Mode) -> nat
    decreases entries.len(), 6int, 0int,
{
    match t {
        TypeV::Atomic { rep, align } => align,
        TypeV::Struct { members } => struct_align(entries, members, entries.len() as int, mode),
        TypeV::Union { variants } => union_align(entries, variants, entries.len() as int, mode),
    }
}

/// All names in the list resolve below `b`.
pub open spec fn list_named(entries: RegView, names: Seq<Seq<char>>, b: int) -> bool {
    forall|j: int| 0 <= j < names.len() ==> name_before(entries, #[trigger] names[j], b)
}

/// A weight dominating every size and alignment a definition can have
/// under any mode: sizes and alignments added for atomics, weights summed
/// (and doubled) for structs, multiplied (and doubled) for unions.
pub open spec fn big_at(entries: RegView, i: int) -> nat
    decreases i, 1int, 0int,
{
    if 0 <= i < entries.len() {
        match entries[i].1 {
            TypeV::Atomic { rep, align } => rep + align,
            TypeV::Struct { members } => 2 * sum_big(entries, members, i),
            TypeV::Union { variants } => 2 * prod_big(entries, variants, i),
        }
    } else {
        0
    }
}

/// The weight of the member named `n`.
pub open spec fn member_big(entries: RegView, n: Seq<char>, b: int) -> nat
    decreases b, 0int, 0int,
{
    if name_before(entries, n, b) {
        big_at(entries, idx_of(entries, n))
    } else {
        0
    }
}

/// The sum of the named members' weights.
pub open spec fn sum_big(entries: RegView, names: Seq<Seq<char>>, b: int) -> nat
    decreases b, 0int, names.len(),
{
    if names.len() == 0 {
        0
    } else {
        sum_big(entries, names.drop_last(), b) + member_big(entries, names.last(), b)
    }
}

/// The product of the named members' weights.
pub open spec fn prod_big(entries: RegView, names: Seq<Seq<char>>, b: int) -> nat
    decreases b, 0int, names.len(),
{
    if names.len() == 0 {
        1
    } else {
        prod_big(entries, names.drop_last(), b) * member_big(entries, names.last(), b)
    }
}

/// The weight of a free-standing definition.
pub open spec fn big_of_type(entries: RegView, t: TypeV) -> nat
    decreases entries.len(), 2int, 0int,
{
    match t {
        TypeV::Atomic { rep, align } => rep + align,
        TypeV::Struct { members } => 2 * sum_big(entries, members, entries.len() as int),
        TypeV::Union { variants } => 2 * prod_big(entries, variants, entries.len() as int),
    }
}

/// One above the largest index any of the names resolves to: an upper
/// bound on the registry prefix a definition with these members can read.
pub open spec fn list_rank(entries: RegView, names: Seq<Seq<char>>) -> int
    decreases names.len(),
{
    if names.len() == 0 {
        0
    } else {
        let r = list_rank(entries, names.drop_last());
        let c = if contains_name(entries, names.last()) {
            idx_of(entries, names.last()) + 1
        } else {
            0
        };
        if c > r {
            c
        } else {
            r
        }
    }
}

/// The recursion rank of a definition: atomics stop the recursion, and a
/// compound definition only reads entries below its list rank.
pub open spec fn type_rank(entries: RegView, t: TypeV) -> int {
    match t {
        TypeV::Atomic { rep, align } => 0,
        TypeV::Struct { members } => list_rank(entries, members),
        TypeV::Union { variants } => list_rank(entries, variants),
    }
}

pub proof fn lemma_list_rank_le(entries: RegView, names: Seq<Seq<char>>, b: int)
    requires
        list_named(entries, names, b),
        b >= 0,
    ensures
        0 <= list_rank(entries, names) <= b,
    decreases names.len(),
{
    if names.len() > 0 {
        let dl = names.drop_last();
        assert(forall|j: int| 0 <= j < dl.len() ==> (#[trigger] dl[j]) == names[j]);
        lemma_list_rank_le(entries, dl, b);
        assert(name_before(entries, names.last(), b));
    }
}

pub proof fn lemma_list_rank_elem(entries: RegView, names: Seq<Seq<char>>, j: int)
    requires
        0 <= j < names.len(),
        contains_name(entries, names[j]),
    ensures
        idx_of(entries, names[j]) < list_rank(entries, names),
    decreases names.len(),
{
    if j == names.len() - 1 {
    } else {
        let dl = names.drop_last();
        assert(dl[j] == names[j]);
        lemma_list_rank_elem(entries, dl, j);
    }
}

/// The rank of a registered definition is at most its own index.
pub proof fn lemma_entry_rank(entries: RegView, k: int)
    requires
        reg_wf(entries),
        0 <= k < entries.len(),
    ensures
        0 <= type_rank(entries, entries[k].1) <= k,
{
    assert(crate::type_system::entry_ok(entries, k));
    match entries[k].1 {
        TypeV::Atomic { rep, align } => {},
        TypeV::Struct { members } => {
            lemma_list_rank_le(entries, members, k);
        },
        TypeV::Union { variants } => {
            lemma_list_rank_le(entries, variants, k);
        },
    }
}

/// Appending a name to a member list extends each fold by one step.
pub proof fn lemma_list_push(
    entries: RegView,
    names: Seq<Seq<char>>,
    x: Seq<char>,
    b: int,
    mode: Mode,
    target: nat,
)
    ensures
        packed_sum(entries, names.push(x), b) == packed_sum(entries, names, b) + member_size(
            entries,
            x,
            b,
            Mode::Packed,
        ),
        placed_end(entries, names.push(x), b, mode) == round_up(
            placed_end(entries, names, b, mode),
            member_align(entries, x, b, mode),
        ) + member_size(entries, x, b, mode),
        max_size(entries, names.push(x), b, mode) == if member_size(entries, x, b, mode)
            > max_size(entries, names, b, mode) {
            member_size(entries, x, b, mode)
        } else {
            max_size(entries, names, b, mode)
        },
        lcm_fold(entries, names.push(x), b, mode) == lcm_nat(
            lcm_fold(entries, names, b, mode),
            member_align(entries, x, b, mode),
        ),
        tied_packed(entries, names.push(x), b, mode, target) == ({
            let cand = if member_size(entries, x, b, mode) == target {
                member_size(entries, x, b, Mode::Packed)
            } else {
                0
            };
            if cand > tied_packed(entries, names, b, mode, target) {
                cand
            } else {
                tied_packed(entries, names, b, mode, target)
            }
        }),
        sum_big(entries, names.push(x), b) == sum_big(entries, names, b) + member_big(
            entries,
            x,
            b,
        ),
        prod_big(entries, names.push(x), b) == prod_big(entries, names, b) * member_big(
            entries,
            x,
            b,
        ),
{
    let p = names.push(x);
    assert(p.drop_last() =~= names);
    assert(p.last() == x);
}

/// The best candidate is one of the candidates, achieves its reported
/// size, and no candidate is smaller.
pub proof fn lemma_best_props(entries: RegView, cands: Seq<Seq<Seq<char>>>, b: int)
    requires
        cands.len() > 0,
    ensures
        ({
            let best = best_pair(entries, cands, b);
            &&& cands.contains(best.0)
            &&& best.1 == placed_end(entries, best.0, b, Mode::Optimized)
            &&& forall|ci: int|
                0 <= ci < cands.len() ==> best.1 <= placed_end(
                    entries,
                    #[trigger] cands[ci],
                    b,
                    Mode::Optimized,
                )
        }),
    decreases cands.len(),
{
    let best = best_pair(entries, cands, b);
    if cands.len() == 1 {
        assert(cands[0] == best.0);
        assert(cands.contains(best.0));
    } else {
        let dl = cands.drop_last();
        lemma_best_props(entries, dl, b);
        let prev = best_pair(entries, dl, b);
        let e = placed_end(entries, cands.last(), b, Mode::Optimized);
        assert(forall|j: int| 0 <= j < dl.len() ==> (#[trigger] dl[j]) == cands[j]);
        if e < prev.1 {
            assert(cands[cands.len() - 1] == best.0);
            assert(cands.contains(best.0));
        } else {
            assert(best == prev);
            let w = choose|w: int| 0 <= w < dl.len() && #[trigger] dl[w] == prev.0;
            assert(cands[w] == prev.0);
            assert(cands.contains(best.0));
        }
        assert forall|ci: int| 0 <= ci < cands.len() implies best.1 <= placed_end(
            entries,
            #[trigger] cands[ci],
            b,
            Mode::Optimized,
        ) by {
            if ci < dl.len() {
                assert(dl[ci] == cands[ci]);
                assert(prev.1 <= placed_end(entries, dl[ci], b, Mode::Optimized));
            } else {
                assert(cands[ci] == cands.last());
            }
        }
    }
}

/// Every enumerated ordering of a resolvable member list is itself a list
/// of resolvable names.
pub proof fn lemma_cands_named(entries: RegView, members: Seq<Seq<char>>, b: int)
    requires
        list_named(entries, members, b),
    ensures
        forall|ci: int|
            0 <= ci < perm_seqs(members).len() ==> list_named(
                entries,
                #[trigger] perm_seqs(members)[ci],
                b,
            ),
        forall|ci: int|
            0 <= ci < perm_seqs(members).len() ==> (#[trigger] perm_seqs(members)[ci]).len()
                == members.len(),
{
    broadcast use vstd::seq_lib::group_to_multiset_ensures;

    assert forall|ci: int| 0 <= ci < perm_seqs(members).len() implies list_named(
        entries,
        #[trigger] perm_seqs(members)[ci],
        b,
    ) && perm_seqs(members)[ci].len() == members.len() by {
        let cand = perm_seqs(members)[ci];
        lemma_perm_seqs_multiset(members, ci);
        assert forall|j: int| 0 <= j < cand.len() implies name_before(
            entries,
            #[trigger] cand[j],
            b,
        ) by {
            assert(cand.contains(cand[j]));
            assert(cand.to_multiset().count(cand[j]) > 0);
            assert(members.contains(cand[j]));
            let w = choose|w: int| 0 <= w < members.len() && members[w] == cand[j];
            assert(name_before(entries, members[w], b));
        }
    }
}

/// The list folds do not depend on the resolution bound, as long as every
/// name resolves below both bounds.
proof fn lemma_helpers_bound(
    entries: RegView,
    names: Seq<Seq<char>>,
    b1: int,
    b2: int,
    mode: Mode,
    target: nat,
)
    requires
        list_named(entries, names, b1),
        list_named(entries, names, b2),
    ensures
        packed_sum(entries, names, b1) == packed_sum(entries, names, b2),
        placed_end(entries, names, b1, mode) == placed_end(entries, names, b2, mode),
        max_size(entries, names, b1, mode) == max_size(entries, names, b2, mode),
        lcm_fold(entries, names, b1, mode) == lcm_fold(entries, names, b2, mode),
        tied_packed(entries, names, b1, mode, target) == tied_packed(
            entries,
            names,
            b2,
            mode,
            target,
        ),
        sum_big(entries, names, b1) == sum_big(entries, names, b2),
        prod_big(entries, names, b1) == prod_big(entries, names, b2),
    decreases names.len(),
{
    if names.len() > 0 {
        let dl = names.drop_last();
        assert(forall|j: int| 0 <= j < dl.len() ==> (#[trigger] dl[j]) == names[j]);
        assert(names.last() == names[names.len() - 1]);
        lemma_helpers_bound(entries, dl, b1, b2, mode, target);
        let x = names.last();
        assert(name_before(entries, x, b1));
        assert(name_before(entries, x, b2));
        assert(member_size(entries, x, b1, Mode::Packed) == member_size(
            entries,
            x,
            b2,
            Mode::Packed,
        ));
        assert(member_size(entries, x, b1, mode) == member_size(entries, x, b2, mode));
        assert(member_align(entries, x, b1, mode) == member_align(entries, x, b2, mode));
        assert(member_big(entries, x, b1) == member_big(entries, x, b2));
    }
}

/// Neither does the best ordering, when every candidate's names resolve
/// below both bounds.
proof fn lemma_best_bound(entries: RegView, cands: Seq<Seq<Seq<char>>>, b1: int, b2: int)
    requires
        forall|ci: int| 0 <= ci < cands.len() ==> list_named(entries, #[trigger] cands[ci], b1),
        forall|ci: int| 0 <= ci < cands.len() ==> list_named(entries, #[trigger] cands[ci], b2),
    ensures
        best_pair(entries, cands, b1) == best_pair(entries, cands, b2),
    decreases cands.len(),
{
    if cands.len() == 0 {
    } else if cands.len() == 1 {
        lemma_helpers_bound(entries, cands[0], b1, b2, Mode::Optimized, 0);
    } else {
        let dl = cands.drop_last();
        assert(forall|j: int| 0 <= j < dl.len() ==> (#[trigger] dl[j]) == cands[j]);
        lemma_best_bound(entries, dl, b1, b2);
        assert(cands.last() == cands[cands.len() - 1]);
        lemma_helpers_bound(entries, cands.last(), b1, b2, Mode::Optimized, 0);
    }
}

/// Struct size and alignment do not depend on the resolution bound either.
proof fn lemma_struct_bound(
    entries: RegView,
    members: Seq<Seq<char>>,
    b1: int,
    b2: int,
    mode: Mode,
)
    requires
        list_named(entries, members, b1),
        list_named(entries, members, b2),
    ensures
        struct_size(entries, members, b1, mode) == struct_size(entries, members, b2, mode),
        struct_align(entries, members, b1, mode) == struct_align(entries, members, b2, mode),
{
    lemma_helpers_bound(entries, members, b1, b2, mode, 0);
    lemma_cands_named(entries, members, b1);
    lemma_cands_named(entries, members, b2);
    let cands = perm_seqs(members);
    lemma_best_bound(entries, cands, b1, b2);
    if mode is Optimized {
        if members.len() == 0 {
            assert(perm_seqs(members).len() == 1);
        } else {
            lemma_perm_seqs_len(members);
            crate::utils::lemma_fact_pos(members.len());
            lemma_best_props(entries, cands, b1);
            lemma_best_props(entries, cands, b2);
            let win = best_pair(entries, cands, b1).0;
            let wi = choose|wi: int| 0 <= wi < cands.len() && cands[wi] == win;
            assert(list_named(entries, win, b1));
            assert(list_named(entries, win, b2));
            if win.len() > 0 {
                assert(name_before(entries, win[0], b1));
            }
        }
    }
}

/// The size and alignment of a registered entry, computed with the entry's
/// own index as the bound, agree with the free-standing definition of size
/// and alignment for the stored definition.
pub proof fn lemma_at_vs_type(entries: RegView, i: int, mode: Mode)
    requires
        reg_wf(entries),
        0 <= i < entries.len(),
    ensures
        size_at(entries, i, mode) == size_of_type(entries, entries[i].1, mode),
        align_at(entries, i, mode) == align_of_type(entries, entries[i].1, mode),
        big_at(entries, i) == big_of_type(entries, entries[i].1),
{
    assert(crate::type_system::entry_ok(entries, i));
    let b2 = entries.len() as int;
    match entries[i].1 {
        TypeV::Atomic { rep, align } => {},
        TypeV::Struct { members } => {
            assert(list_named(entries, members, i));
            assert(list_named(entries, members, b2));
            lemma_struct_bound(entries, members, i, b2, mode);
            lemma_helpers_bound(entries, members, i, b2, mode, 0);
        },
        TypeV::Union { variants } => {
            assert(list_named(entries, variants, i));
            assert(list_named(entries, variants, b2));
            lemma_helpers_bound(entries, variants, i, b2, mode, 0);
        },
    }
}

/// Rounding up to an alignment moves an offset forward by less than one
/// whole alignment unit.
pub proof fn lemma_round_up_bounds(off: nat, a: nat)
    ensures
        off <= round_up(off, a),
        round_up(off, a) <= off + a,
{
    if a > 0 && off % a != 0 {
        vstd::arithmetic::div_mod::lemma_mod_division_less_than_divisor(off as int, a as int);
    }
}

/// Every registered definition has weight at least 2.
pub proof fn lemma_big_pos(entries: RegView, i: int)
    requires
        reg_wf(entries),
        0 <= i < entries.len(),
    ensures
        big_at(entries, i) >= 2,
    decreases i, 1int, 0int,
{
    assert(crate::type_system::entry_ok(entries, i));
    match entries[i].1 {
        TypeV::Atomic { rep, align } => {},
        TypeV::Struct { members } => {
            lemma_members_big_pos(entries, members, i);
        },
        TypeV::Union { variants } => {
            lemma_members_big_pos(entries, variants, i);
        },
    }
}

/// Pointwise and aggregate positivity of the weights of a resolvable
/// member list, and the bound of each member's weight by the aggregates.
pub proof fn lemma_members_big_pos(entries: RegView, names: Seq<Seq<char>>, b: int)
    requires
        reg_wf(entries),
        b <= entries.len(),
        list_named(entries, names, b),
    ensures
        forall|j: int| 0 <= j < names.len() ==> 2 <= member_big(entries, #[trigger] names[j], b),
        forall|j: int|
            0 <= j < names.len() ==> member_big(entries, #[trigger] names[j], b) <= sum_big(
                entries,
                names,
                b,
            ),
        forall|j: int|
            0 <= j < names.len() ==> member_big(entries, #[trigger] names[j], b) <= prod_big(
                entries,
                names,
                b,
            ),
        prod_big(entries, names, b) >= 1,
        names.len() > 0 ==> sum_big(entries, names, b) >= 2 && prod_big(entries, names, b) >= 2,
    decreases b, 0int, names.len(),
{
    if names.len() > 0 {
        let dl = names.drop_last();
        assert(forall|j: int| 0 <= j < dl.len() ==> (#[trigger] dl[j]) == names[j]);
        lemma_members_big_pos(entries, dl, b);
        let x = names.last();
        assert(name_before(entries, x, b));
        lemma_big_pos(entries, idx_of(entries, x));
        let mb = member_big(entries, x, b);
        let sd = sum_big(entries, dl, b);
        let pd = prod_big(entries, dl, b);
        assert(mb >= 2);
        assert(prod_big(entries, names, b) == pd * mb);
        assert(pd * mb >= mb && pd * mb >= pd) by (nonlinear_arith)
            requires
                pd >= 1 && mb >= 2,
        ;
        assert forall|j: int| 0 <= j < names.len() implies 2 <= member_big(
            entries,
            #[trigger] names[j],
            b,
        ) && member_big(entries, names[j], b) <= sum_big(entries, names, b) && member_big(
            entries,
            names[j],
            b,
        ) <= prod_big(entries, names, b) by {
            if j < dl.len() {
                assert(dl[j] == names[j]);
            } else {
                assert(names[j] == x);
            }
        }
    }
}

/// Removing one name removes exactly its contribution from the additive
/// folds.
proof fn lemma_sums_remove(entries: RegView, names: Seq<Seq<char>>, j: int, b: int)
    requires
        0 <= j < names.len(),
    ensures
        sum_big(entries, names, b) == sum_big(entries, names.remove(j), b) + member_big(
            entries,
            names[j],
            b,
        ),
        packed_sum(entries, names, b) == packed_sum(entries, names.remove(j), b) + member_size(
            entries,
            names[j],
            b,
            Mode::Packed,
        ),
    decreases names.len(),
{
    if j == names.len() - 1 {
        assert(names.remove(j) =~= names.drop_last());
    } else {
        let dl = names.drop_last();
        lemma_sums_remove(entries, dl, j, b);
        assert(names.remove(j).drop_last() =~= dl.remove(j));
        assert(names.remove(j).last() == names.last());
        assert(dl[j] == names[j]);
    }
}

/// The additive folds are invariant under reordering of the names.
pub proof fn lemma_sums_perm(entries: RegView, p: Seq<Seq<char>>, q: Seq<Seq<char>>, b: int)
    requires
        p.to_multiset() == q.to_multiset(),
    ensures
        sum_big(entries, p, b) == sum_big(entries, q, b),
        packed_sum(entries, p, b) == packed_sum(entries, q, b),
    decreases q.len(),
{
    broadcast use vstd::seq_lib::group_to_multiset_ensures;

    vstd::seq_lib::to_multiset_len(p);
    vstd::seq_lib::to_multiset_len(q);
    if q.len() == 0 {
        assert(p =~= q);
    } else {
        let x = q.last();
        let dq = q.drop_last();
        assert(q =~= dq.push(x));
        assert(q.to_multiset().count(x) > 0) by {
            assert(q.contains(x));
        }
        assert(p.to_multiset().count(x) > 0);
        assert(p.contains(x));
        let j = choose|j: int| 0 <= j < p.len() && p[j] == x;
        lemma_sums_remove(entries, p, j, b);
        assert(dq =~= q.remove(q.len() - 1));
        assert(p.remove(j).to_multiset() == p.to_multiset().remove(x));
        assert(dq.to_multiset() == q.to_multiset().remove(x));
        lemma_sums_perm(entries, p.remove(j), dq, b);
    }
}

/// Sizes and alignments are positive, and size plus alignment is bounded
/// by the entry's weight, under every mode.
pub proof fn lemma_bounds_at(entries: RegView, i: int, mode: Mode)
    requires
        reg_wf(entries),
        0 <= i < entries.len(),
    ensures
        1 <= size_at(entries, i, mode),
        1 <= align_at(entries, i, mode),
        size_at(entries, i, mode) + align_at(entries, i, mode) <= big_at(entries, i),
    decreases i, 5int, 0int,
{
    assert(crate::type_system::entry_ok(entries, i));
    match entries[i].1 {
        TypeV::Atomic { rep, align } => {},
        TypeV::Struct { members } => {
            lemma_bounds_struct(entries, members, i, mode);
        },
        TypeV::Union { variants } => {
            lemma_bounds_list(entries, variants, i, mode);
            lemma_members_big_pos(entries, variants, i);
            if variants.len() == 1 {
                assert(max_size(entries, variants, i, mode) <= prod_big(entries, variants, i));
            }
        },
    }
}

/// Bounds for a struct's size and alignment: both are positive and their
/// sum is at most twice the member weight sum.
proof fn lemma_bounds_struct(entries: RegView, members: Seq<Seq<char>>, b: int, mode: Mode)
    requires
        reg_wf(entries),
        0 <= b <= entries.len(),
        list_named(entries, members, b),
        members.len() > 0,
    ensures
        1 <= struct_size(entries, members, b, mode),
        struct_size(entries, members, b, mode) <= sum_big(entries, members, b),
        1 <= struct_align(entries, members, b, mode),
        struct_align(entries, members, b, mode) <= sum_big(entries, members, b),
    decreases b, 4int, 0int,
{
    lemma_bounds_list(entries, members, b, mode);
    lemma_members_big_pos(entries, members, b);
    match mode {
        Mode::Optimized => {
            let cands = perm_seqs(members);
            lemma_perm_seqs_len(members);
            crate::utils::lemma_fact_pos(members.len());
            lemma_best_props(entries, cands, b);
            lemma_cands_named(entries, members, b);
            let best = best_pair(entries, cands, b);
            let win = best.0;
            let wi = choose|wi: int| 0 <= wi < cands.len() && #[trigger] cands[wi] == win;
            lemma_perm_seqs_multiset(members, wi);
            lemma_bounds_list(entries, win, b, Mode::Optimized);
            lemma_sums_perm(entries, win, members, b);
            assert(best.1 <= sum_big(entries, win, b));
            assert(win.len() == members.len());
            assert(best.1 >= win.len());
            lemma_members_big_pos(entries, win, b);
            assert(name_before(entries, win[0], b));
            lemma_bounds_at(entries, idx_of(entries, win[0]), Mode::Optimized);
            assert(member_align(entries, win[0], b, Mode::Optimized) <= member_big(
                entries,
                win[0],
                b,
            ));
            assert(member_big(entries, win[0], b) <= sum_big(entries, win, b));
        },
        _ => {
            assert(name_before(entries, members[0], b));
            lemma_bounds_at(entries, idx_of(entries, members[0]), mode);
            assert(member_align(entries, members[0], b, mode) <= member_big(
                entries,
                members[0],
                b,
            ));
            assert(member_big(entries, members[0], b) <= sum_big(entries, members, b));
        },
    }
}

/// Bounds for the list folds: the packed sum and the placed size count at
/// least one byte per member and are bounded by the weight sum; the
/// largest member size and the alignment fold are bounded by the weight
/// product.
proof fn lemma_bounds_list(entries: RegView, names: Seq<Seq<char>>, b: int, mode: Mode)
    requires
        reg_wf(entries),
        0 <= b <= entries.len(),
        list_named(entries, names, b),
    ensures
        names.len() <= packed_sum(entries, names, b),
        packed_sum(entries, names, b) <= sum_big(entries, names, b),
        names.len() <= placed_end(entries, names, b, mode),
        placed_end(entries, names, b, mode) <= sum_big(entries, names, b),
        max_size(entries, names, b, mode) <= prod_big(entries, names, b),
        names.len() > 0 ==> 1 <= max_size(entries, names, b, mode),
        1 <= lcm_fold(entries, names, b, mode),
        lcm_fold(entries, names, b, mode) <= prod_big(entries, names, b),
        forall|j: int|
            0 <= j < names.len() ==> 1 <= member_size(entries, #[trigger] names[j], b, mode),
        forall|j: int|
            0 <= j < names.len() ==> 1 <= member_align(entries, #[trigger] names[j], b, mode),
    decreases b, 2int, names.len(),
{
    lemma_members_big_pos(entries, names, b);
    if names.len() > 0 {
        let dl = names.drop_last();
        assert(forall|j: int| 0 <= j < dl.len() ==> (#[trigger] dl[j]) == names[j]);
        lemma_bounds_list(entries, dl, b, mode);
        let x = names.last();
        assert(name_before(entries, x, b));
        let k = idx_of(entries, x);
        lemma_bounds_at(entries, k, mode);
        lemma_bounds_at(entries, k, Mode::Packed);
        lemma_big_pos(entries, k);
        let ms = member_size(entries, x, b, mode);
        let ma = member_align(entries, x, b, mode);
        let mb = member_big(entries, x, b);
        assert(ms + ma <= mb);
        let mp = member_size(entries, x, b, Mode::Packed);
        assert(mp == size_at(entries, k, Mode::Packed));
        assert(mb == big_at(entries, k));
        assert(1 <= mp);
        assert(mp <= mb);
        assert(packed_sum(entries, names, b) == packed_sum(entries, dl, b) + mp);
        // placed size: padding never exceeds the alignment
        lemma_round_up_bounds(placed_end(entries, dl, b, mode), ma);
        assert(placed_end(entries, names, b, mode) <= placed_end(entries, dl, b, mode) + ma + ms);
        assert(sum_big(entries, names, b) == sum_big(entries, dl, b) + mb);
        // max: the new member is bounded by its own weight, which is bounded
        // by the product; the old max is bounded by the old product
        let pd = prod_big(entries, dl, b);
        assert(prod_big(entries, names, b) == pd * mb);
        assert(pd * mb >= pd && pd * mb >= mb) by (nonlinear_arith)
            requires
                pd >= 1 && mb >= 2,
        ;
        assert(member_big(entries, x, b) <= prod_big(entries, names, b));
        // lcm fold: lcm(u, a) <= u * a <= pd * mb
        let u = lcm_fold(entries, dl, b, mode);
        lemma_lcm_bounds(u, ma);
        assert(u * ma <= pd * mb) by (nonlinear_arith)
            requires
                1 <= u <= pd && 1 <= ma && ma <= mb,
        ;
        assert forall|j: int| 0 <= j < names.len() implies 1 <= member_size(
            entries,
            #[trigger] names[j],
            b,
            mode,
        ) && 1 <= member_align(entries, names[j], b, mode) by {
            if j < dl.len() {
                assert(dl[j] == names[j]);
            } else {
                assert(names[j] == x);
            }
        }
    }
}

/// Under every mode a type is at least as large as in packed mode: the
/// packed layout is the smallest of the three.
pub proof fn lemma_packed_le_at(entries: RegView, i: int, mode: Mode)
    requires
        reg_wf(entries),
        0 <= i < entries.len(),
    ensures
        size_at(entries, i, Mode::Packed) <= size_at(entries, i, mode),
    decreases i, 5int, 0int,
{
    assert(crate::type_system::entry_ok(entries, i));
    match entries[i].1 {
        TypeV::Atomic { rep, align } => {},
        TypeV::Struct { members } => {
            lemma_packed_le_struct(entries, members, i, mode);
        },
        TypeV::Union { variants } => {
            lemma_packed_le_list(entries, variants, i, mode);
        },
    }
}

/// A struct's packed sum is a lower bound for its size under every mode.
pub proof fn lemma_packed_le_struct(entries: RegView, members: Seq<Seq<char>>, b: int, mode: Mode)
    requires
        reg_wf(entries),
        0 <= b <= entries.len(),
        list_named(entries, members, b),
    ensures
        packed_sum(entries, members, b) <= struct_size(entries, members, b, mode),
    decreases b, 4int, 0int,
{
    match mode {
        Mode::Packed => {},
        Mode::Unpacked => {
            lemma_packed_le_list(entries, members, b, Mode::Unpacked);
        },
        Mode::Optimized => {
            if members.len() == 0 {
                assert(perm_seqs(members).len() == 1);
                assert(perm_seqs(members)[0] =~= Seq::<Seq<char>>::empty());
            } else {
                let cands = perm_seqs(members);
                lemma_perm_seqs_len(members);
                crate::utils::lemma_fact_pos(members.len());
                lemma_best_props(entries, cands, b);
                lemma_cands_named(entries, members, b);
                let best = best_pair(entries, cands, b);
                let win = best.0;
                let wi = choose|wi: int| 0 <= wi < cands.len() && #[trigger] cands[wi] == win;
                lemma_perm_seqs_multiset(members, wi);
                lemma_packed_le_list(entries, win, b, Mode::Optimized);
                lemma_sums_perm(entries, win, members, b);
                assert(packed_sum(entries, win, b) <= best.1);
            }
        },
    }
}

/// Listwise packed lower bounds: the placed size under any mode dominates
/// the packed sum, and the largest packed member size is dominated by the
/// largest member size under any mode; a tied packed size never exceeds
/// the target it is tied to.
proof fn lemma_packed_le_list(entries: RegView, names: Seq<Seq<char>>, b: int, mode: Mode)
    requires
        reg_wf(entries),
        0 <= b <= entries.len(),
        list_named(entries, names, b),
    ensures
        packed_sum(entries, names, b) <= placed_end(entries, names, b, mode),
        max_size(entries, names, b, Mode::Packed) <= max_size(entries, names, b, mode),
        forall|j: int|
            0 <= j < names.len() ==> member_size(entries, #[trigger] names[j], b, Mode::Packed)
                <= member_size(entries, names[j], b, mode),
    decreases b, 2int, names.len(),
{
    if names.len() > 0 {
        let dl = names.drop_last();
        assert(forall|j: int| 0 <= j < dl.len() ==> (#[trigger] dl[j]) == names[j]);
        lemma_packed_le_list(entries, dl, b, mode);
        let x = names.last();
        assert(name_before(entries, x, b));
        let k = idx_of(entries, x);
        lemma_packed_le_at(entries, k, mode);
        lemma_round_up_bounds(placed_end(entries, dl, b, mode), member_align(entries, x, b, mode));
        assert forall|j: int| 0 <= j < names.len() implies member_size(
            entries,
            #[trigger] names[j],
            b,
            Mode::Packed,
        ) <= member_size(entries, names[j], b, mode) by {
            if j < dl.len() {
                assert(dl[j] == names[j]);
            } else {
                assert(names[j] == x);
            }
        }
    }
}

/// Removing one name removes exactly its contribution from the union
/// folds: the maximum over the rest combined with the removed member's
/// size, and the alignment fold re-associated around the removed member's
/// alignment.
proof fn lemma_union_folds_remove(
    entries: RegView,
    names: Seq<Seq<char>>,
    j: int,
    b: int,
    mode: Mode,
)
    requires
        0 <= j < names.len(),
    ensures
        max_size(entries, names, b, mode) == ({
            let rest = max_size(entries, names.remove(j), b, mode);
            let s = member_size(entries, names[j], b, mode);
            if s > rest {
                s
            } else {
                rest
            }
        }),
        lcm_fold(entries, names, b, mode) == lcm_nat(
            lcm_fold(entries, names.remove(j), b, mode),
            member_align(entries, names[j], b, mode),
        ),
    decreases names.len(),
{
    if j == names.len() - 1 {
        assert(names.remove(j) =~= names.drop_last());
    } else {
        let dl = names.drop_last();
        lemma_union_folds_remove(entries, dl, j, b, mode);
        assert(names.remove(j).drop_last() =~= dl.remove(j));
        assert(names.remove(j).last() == names.last());
        assert(dl[j] == names[j]);
        let u = lcm_fold(entries, dl.remove(j), b, mode);
        let aj = member_align(entries, dl[j], b, mode);
        let al = member_align(entries, names.last(), b, mode);
        // re-associate: lcm(lcm(u, aj), al) == lcm(lcm(u, al), aj)
        crate::utils::lemma_lcm_assoc(u, aj, al);
        crate::utils::lemma_lcm_comm(aj, al);
        crate::utils::lemma_lcm_assoc(u, al, aj);
    }
}

/// A union's size and alignment do not depend on the order of its
/// variants: reordering the list changes neither the largest size nor the
/// alignment fold.
pub proof fn lemma_union_order_irrelevant(
    entries: RegView,
    p: Seq<Seq<char>>,
    q: Seq<Seq<char>>,
    b: int,
    mode: Mode,
)
    requires
        p.to_multiset() == q.to_multiset(),
    ensures
        max_size(entries, p, b, mode) == max_size(entries, q, b, mode),
        lcm_fold(entries, p, b, mode) == lcm_fold(entries, q, b, mode),
        union_align(entries, p, b, mode) == union_align(entries, q, b, mode),
    decreases q.len(),
{
    broadcast use vstd::seq_lib::group_to_multiset_ensures;

    vstd::seq_lib::to_multiset_len(p);
    vstd::seq_lib::to_multiset_len(q);
    if q.len() == 0 {
        assert(p =~= q);
    } else {
        let x = q.last();
        let dq = q.drop_last();
        assert(q.to_multiset().count(x) > 0) by {
            assert(q.contains(x));
        }
        assert(p.to_multiset().count(x) > 0);
        assert(p.contains(x));
        let j = choose|j: int| 0 <= j < p.len() && p[j] == x;
        lemma_union_folds_remove(entries, p, j, b, mode);
        assert(dq =~= q.remove(q.len() - 1));
        assert(p.remove(j).to_multiset() == p.to_multiset().remove(x));
        assert(dq.to_multiset() == q.to_multiset().remove(x));
        lemma_union_order_irrelevant(entries, p.remove(j), dq, b, mode);
    }
}

/// A prefix of a member list never outweighs the whole list.
proof fn lemma_prefix_sums(entries: RegView, names: Seq<Seq<char>>, b: int, j: int)
    requires
        reg_wf(entries),
        0 <= b <= entries.len(),
        list_named(entries, names, b),
        0 <= j <= names.len(),
    ensures
        sum_big(entries, names.take(j), b) <= sum_big(entries, names, b),
        packed_sum(entries, names.take(j), b) <= packed_sum(entries, names, b),
        prod_big(entries, names.take(j), b) <= prod_big(entries, names, b),
    decreases names.len(),
{
    lemma_members_big_pos(entries, names, b);
    if j == names.len() {
        assert(names.take(j) =~= names);
    } else {
        let dl = names.drop_last();
        assert(forall|k: int| 0 <= k < dl.len() ==> (#[trigger] dl[k]) == names[k]);
        lemma_prefix_sums(entries, dl, b, j);
        assert(names.take(j) =~= dl.take(j));
        let x = names.last();
        assert(name_before(entries, x, b));
        let pd = prod_big(entries, dl, b);
        let mb = member_big(entries, x, b);
        assert(prod_big(entries, names, b) == pd * mb);
        assert(pd * mb >= pd) by (nonlinear_arith)
            requires
                pd >= 0 && mb >= 1,
        ;
    }
}

/// A list drawn from the elements of another list has no larger rank.
proof fn lemma_list_rank_subset(entries: RegView, p: Seq<Seq<char>>, q: Seq<Seq<char>>)
    requires
        forall|x: Seq<char>| p.contains(x) ==> q.contains(x),
        list_named(entries, q, entries.len() as int),
    ensures
        0 <= list_rank(entries, p) <= list_rank(entries, q),
{
    let r = list_rank(entries, q);
    assert forall|j: int| 0 <= j < p.len() implies name_before(entries, #[trigger] p[j], r) by {
        assert(p.contains(p[j]));
        assert(q.contains(p[j]));
        let w = choose|w: int| 0 <= w < q.len() && q[w] == p[j];
        assert(name_before(entries, q[w], entries.len() as int));
        lemma_list_rank_elem(entries, q, w);
    }
    if p.len() == 0 {
        lemma_list_rank_le(entries, q, entries.len() as int);
        lemma_list_rank_le(entries, p, if r >= 0 {
            r
        } else {
            0
        });
    } else {
        assert(name_before(entries, p[0], r));
        lemma_list_rank_le(entries, p, r);
    }
}

/// Clone a list of names.
fn clone_list(names: &TypeList) -> (r: TypeList)
    ensures
        r@ == names@,
{
    let mut r: TypeList = Vec::new();
    let n: usize = names.len();
    let mut i: usize = 0;
    while i < n
        invariant
            n == names@.len(),
            0 <= i <= n,
            r@ =~= names@.take(i as int),
        decreases n - i,
    {
        r.push(names[i].clone());
        proof {
            assert(r@ =~= names@.take(i + 1));
        }
        i += 1;
    }
    proof {
        assert(names@.take(n as int) =~= names@);
    }
    r
}

/// Place the named members in order under natural alignment rules, with
/// member sizes and alignments taken under `mode`, and return the offset
/// reached: the padded size of that ordering.
fn place_list(manager: &TypeManager, names: &TypeList, mode: Mode) -> (s: usize)
    requires
        manager.wf(),
        list_named(manager@, names.deep_view(), manager@.len() as int),
        sum_big(manager@, names.deep_view(), manager@.len() as int) <= usize::MAX,
    ensures
        s == placed_end(manager@, names.deep_view(), manager@.len() as int, mode),
    decreases list_rank(manager@, names.deep_view()), 0int,
{
    let ghost entries = manager@;
    let ghost dv = names.deep_view();
    let ghost b = entries.len() as int;
    let mut curr_pos: usize = 0;
    let n: usize = names.len();
    let mut idx: usize = 0;
    while idx < n
        invariant
            manager.wf(),
            entries == manager@,
            dv == names.deep_view(),
            b == entries.len() as int,
            list_named(entries, dv, b),
            sum_big(entries, dv, b) <= usize::MAX,
            n == names@.len(),
            dv.len() == n,
            0 <= idx <= n,
            curr_pos == placed_end(entries, dv.take(idx as int), b, mode),
        decreases n - idx,
    {
        let ghost pre = dv.take(idx as int);
        proof {
            assert(dv[idx as int] == names@[idx as int]@);
            assert(dv.take(idx + 1) =~= pre.push(dv[idx as int]));
            assert(name_before(entries, dv[idx as int], b));
        }
        let member: &Name = &names[idx];
        let t = manager.get(member).unwrap();
        let ghost k = idx_of(entries, dv[idx as int]);
        proof {
            assert(t@ == entries[k].1);
            assert(crate::type_system::entry_ok(entries, k));
            crate::type_system::lemma_type_ok_mono(entries, entries[k].1, k, b);
            lemma_at_vs_type(entries, k, mode);
            lemma_members_big_pos(entries, dv, b);
            assert(member_big(entries, dv[idx as int], b) <= sum_big(entries, dv, b));
            lemma_entry_rank(entries, k);
            lemma_list_rank_elem(entries, dv, idx as int);
            lemma_bounds_at(entries, k, mode);
            lemma_list_push(entries, pre, dv[idx as int], b, mode, 0);
            assert forall|j: int| 0 <= j < dv.take(idx + 1).len() implies name_before(
                entries,
                #[trigger] dv.take(idx + 1)[j],
                b,
            ) by {
                assert(dv.take(idx + 1)[j] == dv[j]);
            }
            lemma_bounds_list(entries, dv.take(idx + 1), b, mode);
            lemma_prefix_sums(entries, dv, b, idx + 1);
            lemma_round_up_bounds(curr_pos as nat, align_at(entries, k, mode));
        }
        let size = t.size(manager, mode);
        let align = t.align(manager, mode);
        proof {
            assert(align >= 1);
            assert(round_up(curr_pos as nat, align as nat) + size == placed_end(
                entries,
                dv.take(idx + 1),
                b,
                mode,
            ));
            assert(placed_end(entries, dv.take(idx + 1), b, mode) <= sum_big(
                entries,
                dv.take(idx + 1),
                b,
            ));
        }
        if curr_pos % align != 0 {
            curr_pos = curr_pos + (align - curr_pos % align);
        }
        proof {
            assert(curr_pos == round_up(placed_end(entries, pre, b, mode), align as nat));
        }
        curr_pos = curr_pos + size;
        idx += 1;
    }
    proof {
        assert(dv.take(n as int) =~= dv);
    }
    curr_pos
}

impl Type {
    /// The size of this type in bytes under the given packing mode, with
    /// member names resolved through the registry.
    pub fn size(&self, manager: &TypeManager, mode: Mode) -> (s: usize)
        requires
            manager.wf(),
            valid_type(manager@, self@),
            big_of_type(manager@, self@) <= usize::MAX,
        ensures
            s == size_of_type(manager@, self@, mode),
        decreases type_rank(manager@, self@), 3int,
    {
        match self {
            Type::Atomic(a) => a.size(),
            Type::Struct(s) => {
                proof {
                    lemma_list_rank_le(
                        manager@,
                        s.members.deep_view(),
                        manager@.len() as int,
                    );
                }
                match mode {
                    Mode::Unpacked => s.unpacked_size(manager),
                    Mode::Packed => s.packed_size(manager),
                    Mode::Optimized => s.optimized_size(manager),
                }
            },
            Type::Union(u) => {
                proof {
                    lemma_list_rank_le(
                        manager@,
                        u.variants.deep_view(),
                        manager@.len() as int,
                    );
                }
                u.size(manager, mode)
            },
        }
    }

    /// The alignment of this type in bytes under the given packing mode.
    pub fn align(&self, manager: &TypeManager, mode: Mode) -> (a: usize)
        requires
            manager.wf(),
            valid_type(manager@, self@),
            big_of_type(manager@, self@) <= usize::MAX,
        ensures
            a == align_of_type(manager@, self@, mode),
        decreases type_rank(manager@, self@), 3int,
    {
        match self {
            Type::Atomic(a) => a.align(),
            Type::Struct(s) => {
                proof {
                    lemma_list_rank_le(
                        manager@,
                        s.members.deep_view(),
                        manager@.len() as int,
                    );
                }
                match mode {
                    Mode::Unpacked => s.unpacked_align(manager),
                    Mode::Packed => s.packed_align(manager),
                    Mode::Optimized => s.optimized_align(manager),
                }
            },
            Type::Union(u) => {
                proof {
                    lemma_list_rank_le(
                        manager@,
                        u.variants.deep_view(),
                        manager@.len() as int,
                    );
                }
                u.align(manager, mode)
            },
        }
    }
}

impl Struct {
    /// The struct's size under natural layout: members in declared order,
    /// each padded to its own alignment.
    pub fn unpacked_size(&self, manager: &TypeManager) -> (s: usize)
        requires
            manager.wf(),
            list_named(manager@, self.members.deep_view(), manager@.len() as int),
            sum_big(manager@, self.members.deep_view(), manager@.len() as int) <= usize::MAX,
        ensures
            s == struct_size(
                manager@,
                self.members.deep_view(),
                manager@.len() as int,
                Mode::Unpacked,
            ),
        decreases list_rank(manager@, self.members.deep_view()), 1int,
    {
        place_list(manager, &self.members, Mode::Unpacked)
    }

    /// The struct's fully packed size: the members' packed sizes summed,
    /// with no padding.
    pub fn packed_size(&self, manager: &TypeManager) -> (s: usize)
        requires
            manager.wf(),
            list_named(manager@, self.members.deep_view(), manager@.len() as int),
            sum_big(manager@, self.members.deep_view(), manager@.len() as int) <= usize::MAX,
        ensures
            s == struct_size(
                manager@,
                self.members.deep_view(),
                manager@.len() as int,
                Mode::Packed,
            ),
        decreases list_rank(manager@, self.members.deep_view()), 1int,
    {
        let ghost entries = manager@;
        let ghost dv = self.members.deep_view();
        let ghost b = entries.len() as int;
        let mut sum: usize = 0;
        let n: usize = self.members.len();
        let mut idx: usize = 0;
        while idx < n
            invariant
                manager.wf(),
                entries == manager@,
                dv == self.members.deep_view(),
                b == entries.len() as int,
                list_named(entries, dv, b),
                sum_big(entries, dv, b) <= usize::MAX,
                n == self.members@.len(),
                dv.len() == n,
                0 <= idx <= n,
                sum == packed_sum(entries, dv.take(idx as int), b),
            decreases n - idx,
        {
            let ghost pre = dv.take(idx as int);
            proof {
                assert(dv[idx as int] == self.members@[idx as int]@);
                assert(dv.take(idx + 1) =~= pre.push(dv[idx as int]));
                assert(name_before(entries, dv[idx as int], b));
            }
            let t = manager.get(&self.members[idx]).unwrap();
            let ghost k = idx_of(entries, dv[idx as int]);
            proof {
                assert(t@ == entries[k].1);
                assert(crate::type_system::entry_ok(entries, k));
                crate::type_system::lemma_type_ok_mono(entries, entries[k].1, k, b);
                lemma_at_vs_type(entries, k, Mode::Packed);
                lemma_members_big_pos(entries, dv, b);
                lemma_entry_rank(entries, k);
                lemma_list_rank_elem(entries, dv, idx as int);
                lemma_list_push(entries, pre, dv[idx as int], b, Mode::Packed, 0);
                assert forall|j: int| 0 <= j < dv.take(idx + 1).len() implies name_before(
                    entries,
                    #[trigger] dv.take(idx + 1)[j],
                    b,
                ) by {
                    assert(dv.take(idx + 1)[j] == dv[j]);
                }
                lemma_bounds_list(entries, dv.take(idx + 1), b, Mode::Packed);
                lemma_prefix_sums(entries, dv, b, idx + 1);
            }
            let size = t.size(manager, Mode::Packed);
            sum = sum + size;
            idx += 1;
        }
        proof {
            assert(dv.take(n as int) =~= dv);
        }
        sum
    }

    /// The struct's size under the best member ordering.
    pub fn optimized_size(&self, manager: &TypeManager) -> (s: usize)
        requires
            manager.wf(),
            list_named(manager@, self.members.deep_view(), manager@.len() as int),
            self.members@.len() > 0,
            sum_big(manager@, self.members.deep_view(), manager@.len() as int) < usize::MAX,
        ensures
            s == struct_size(
                manager@,
                self.members.deep_view(),
                manager@.len() as int,
                Mode::Optimized,
            ),
        decreases list_rank(manager@, self.members.deep_view()), 2int,
    {
        let r = self.get_optimal_layout(manager);
        r.1
    }

    /// The struct's alignment under natural layout: its first member's
    /// alignment.
    pub fn unpacked_align(&self, manager: &TypeManager) -> (a: usize)
        requires
            manager.wf(),
            list_named(manager@, self.members.deep_view(), manager@.len() as int),
            self.members@.len() > 0,
            sum_big(manager@, self.members.deep_view(), manager@.len() as int) <= usize::MAX,
        ensures
            a == struct_align(
                manager@,
                self.members.deep_view(),
                manager@.len() as int,
                Mode::Unpacked,
            ),
        decreases list_rank(manager@, self.members.deep_view()), 1int,
    {
        self.first_member_align(manager, Mode::Unpacked)
    }

    /// The struct's alignment under packed layout, defined the same way as
    /// under natural layout.
    pub fn packed_align(&self, manager: &TypeManager) -> (a: usize)
        requires
            manager.wf(),
            list_named(manager@, self.members.deep_view(), manager@.len() as int),
            self.members@.len() > 0,
            sum_big(manager@, self.members.deep_view(), manager@.len() as int) <= usize::MAX,
        ensures
            a == struct_align(
                manager@,
                self.members.deep_view(),
                manager@.len() as int,
                Mode::Packed,
            ),
        decreases list_rank(manager@, self.members.deep_view()), 1int,
    {
        self.first_member_align(manager, Mode::Packed)
    }

    /// The declared first member's alignment under `mode`.
    fn first_member_align(&self, manager: &TypeManager, mode: Mode) -> (a: usize)
        requires
            manager.wf(),
            list_named(manager@, self.members.deep_view(), manager@.len() as int),
            self.members@.len() > 0,
            sum_big(manager@, self.members.deep_view(), manager@.len() as int) <= usize::MAX,
            !(mode is Optimized),
        ensures
            a == struct_align(manager@, self.members.deep_view(), manager@.len() as int, mode),
        decreases list_rank(manager@, self.members.deep_view()), 0int,
    {
        let ghost entries = manager@;
        let ghost dv = self.members.deep_view();
        let ghost b = entries.len() as int;
        proof {
            assert(dv[0] == self.members@[0]@);
            assert(name_before(entries, dv[0], b));
        }
        let t = manager.get(&self.members[0]).unwrap();
        let ghost k = idx_of(entries, dv[0]);
        proof {
            assert(t@ == entries[k].1);
            assert(crate::type_system::entry_ok(entries, k));
            crate::type_system::lemma_type_ok_mono(entries, entries[k].1, k, b);
            lemma_at_vs_type(entries, k, mode);
            lemma_members_big_pos(entries, dv, b);
            lemma_entry_rank(entries, k);
            lemma_list_rank_elem(entries, dv, 0);
        }
        t.align(manager, mode)
    }

    /// The struct's alignment under the optimized layout: the alignment of
    /// the first member of the winning ordering.
    pub fn optimized_align(&self, manager: &TypeManager) -> (a: usize)
        requires
            manager.wf(),
            list_named(manager@, self.members.deep_view(), manager@.len() as int),
            self.members@.len() > 0,
            sum_big(manager@, self.members.deep_view(), manager@.len() as int) < usize::MAX,
        ensures
            a == struct_align(
                manager@,
                self.members.deep_view(),
                manager@.len() as int,
                Mode::Optimized,
            ),
        decreases list_rank(manager@, self.members.deep_view()), 2int,
    {
        broadcast use vstd::seq_lib::group_to_multiset_ensures;

        let ghost entries = manager@;
        let ghost dv = self.members.deep_view();
        let ghost b = entries.len() as int;
        let r = self.get_optimal_layout(manager);
        let layout = r.0;
        let ghost win = layout.deep_view();
        proof {
            vstd::seq_lib::to_multiset_len(win);
            vstd::seq_lib::to_multiset_len(dv);
            assert(win.len() == dv.len());
            assert(win[0] == layout@[0]@);
            assert(win.contains(win[0]));
            assert(win.to_multiset().count(win[0]) > 0);
            assert(dv.contains(win[0]));
            let w = choose|w: int| 0 <= w < dv.len() && dv[w] == win[0];
            assert(name_before(entries, dv[w], b));
        }
        let t = manager.get(&layout[0]).unwrap();
        let ghost k = idx_of(entries, win[0]);
        proof {
            assert(t@ == entries[k].1);
            assert(crate::type_system::entry_ok(entries, k));
            crate::type_system::lemma_type_ok_mono(entries, entries[k].1, k, b);
            lemma_at_vs_type(entries, k, Mode::Optimized);
            lemma_members_big_pos(entries, dv, b);
            lemma_entry_rank(entries, k);
            let w = choose|w: int| 0 <= w < dv.len() && dv[w] == win[0];
            lemma_list_rank_elem(entries, dv, w);
        }
        t.align(manager, Mode::Optimized)
    }

    /// The best data layout for this struct: the member ordering, among all
    /// permutations, with the smallest padded size (the first such ordering
    /// in enumeration order, on ties), and that size.  No ordering of the
    /// members does better than the returned size.
    pub fn get_optimal_layout(&self, manager: &TypeManager) -> (r: (TypeList, usize))
        requires
            manager.wf(),
            list_named(manager@, self.members.deep_view(), manager@.len() as int),
            self.members@.len() > 0,
            sum_big(manager@, self.members.deep_view(), manager@.len() as int) < usize::MAX,
        ensures
            ({
                let entries = manager@;
                let dv = self.members.deep_view();
                let b = entries.len() as int;
                let best = best_pair(entries, perm_seqs(dv), b);
                &&& r.0.deep_view() == best.0
                &&& r.1 == best.1
                &&& r.0.deep_view().to_multiset() == dv.to_multiset()
                &&& r.1 == placed_end(entries, r.0.deep_view(), b, Mode::Optimized)
                &&& forall|ord: Seq<Seq<char>>|
                    ord.to_multiset() == dv.to_multiset() ==> r.1 <= placed_end(
                        entries,
                        ord,
                        b,
                        Mode::Optimized,
                    )
            }),
        decreases list_rank(manager@, self.members.deep_view()), 1int,
    {
        let ghost entries = manager@;
        let ghost dv = self.members.deep_view();
        let ghost b = entries.len() as int;
        let ghost cands = perm_seqs(dv);
        proof {
            lemma_perm_seqs_len(dv);
            crate::utils::lemma_fact_pos(dv.len());
            lemma_cands_named(entries, dv, b);
        }
        let perms: Vec<TypeList> = self.members_permutations();
        let np: usize = perms.len();
        let mut min: usize = usize::MAX;
        let mut layout: TypeList = Vec::new();
        let mut j: usize = 0;
        while j < np
            invariant
                manager.wf(),
                entries == manager@,
                dv == self.members.deep_view(),
                b == entries.len() as int,
                list_named(entries, dv, b),
                dv.len() > 0,
                sum_big(entries, dv, b) < usize::MAX,
                cands == perm_seqs(dv),
                perms.deep_view() == cands,
                np == perms@.len(),
                np == cands.len(),
                np >= 1,
                0 <= j <= np,
                j == 0 ==> min == usize::MAX,
                j > 0 ==> (layout.deep_view(), min as nat) == best_pair(
                    entries,
                    cands.take(j as int),
                    b,
                ),
            decreases np - j,
        {
            let tl: &TypeList = &perms[j];
            proof {
                assert(perms.deep_view()[j as int] == perms@[j as int].deep_view());
                assert(tl.deep_view() == cands[j as int]);
                lemma_cands_named(entries, dv, b);
                assert(perm_seqs(dv)[j as int] == cands[j as int]);
                assert(list_named(entries, perm_seqs(dv)[j as int], b));
                assert(list_named(entries, cands[j as int], b));
                lemma_perm_seqs_multiset(dv, j as int);
                lemma_sums_perm(entries, cands[j as int], dv, b);
                assert forall|x: Seq<char>| tl.deep_view().contains(x) implies dv.contains(x) by {
                    broadcast use vstd::seq_lib::group_to_multiset_ensures;

                    assert(tl.deep_view().to_multiset().count(x) > 0);
                }
                lemma_list_rank_subset(entries, tl.deep_view(), dv);
                assert forall|jj: int| 0 <= jj < dv.len() implies name_before(
                    entries,
                    #[trigger] dv[jj],
                    b,
                ) by {}
                lemma_bounds_list(entries, tl.deep_view(), b, Mode::Optimized);
            }
            let curr = place_list(manager, tl, Mode::Optimized);
            proof {
                assert(curr == placed_end(entries, cands[j as int], b, Mode::Optimized));
                assert(curr <= sum_big(entries, dv, b));
                assert(curr < usize::MAX);
                assert(cands.take(j + 1) =~= cands.take(j as int).push(cands[j as int]));
            }
            if curr < min {
                min = curr;
                layout = clone_list(tl);
                proof {
                    assert(layout.deep_view() =~~= tl.deep_view());
                }
            }
            proof {
                if j == 0 {
                    assert(cands.take(1) =~= seq![cands[0]]);
                    assert(best_pair(entries, cands.take(1), b) == (
                        cands[0],
                        placed_end(entries, cands[0], b, Mode::Optimized),
                    ));
                    assert(layout.deep_view() == cands[0]);
                } else {
                    assert(cands.take(j + 1).len() >= 2);
                    assert(cands.take(j + 1).drop_last() =~= cands.take(j as int));
                    assert(cands.take(j + 1).last() == cands[j as int]);
                }
            }
            j += 1;
        }
        proof {
            assert(cands.take(np as int) =~= cands);
            lemma_best_props(entries, cands, b);
            let best = best_pair(entries, cands, b);
            let wi = choose|wi: int| 0 <= wi < cands.len() && #[trigger] cands[wi] == best.0;
            lemma_perm_seqs_multiset(dv, wi);
            assert forall|ord: Seq<Seq<char>>| ord.to_multiset() == dv.to_multiset() implies min
                <= placed_end(entries, ord, b, Mode::Optimized) by {
                lemma_perm_seqs_complete(dv, ord);
                let oi = choose|oi: int| 0 <= oi < cands.len() && #[trigger] cands[oi] == ord;
                assert(best.1 <= placed_end(entries, cands[oi], b, Mode::Optimized));
            }
        }
        (layout, min)
    }

    /// Every ordering of this struct's member list, one list per ordering.
    pub fn members_permutations(&self) -> (r: Vec<TypeList>)
        ensures
            self.members@.len() == 0 ==> r@ == Seq::<TypeList>::empty(),
            self.members@.len() > 0 ==> r.deep_view() == perm_seqs(self.members.deep_view()),
    {
        broadcast use vstd::seq_lib::group_to_multiset_ensures;

        let ghost dv = self.members.deep_view();
        let n: usize = self.members.len();
        let mut indices: Vec<usize> = Vec::new();
        let mut i: usize = 0;
        while i < n
            invariant
                n == self.members@.len(),
                0 <= i <= n,
                indices@.len() == i,
                forall|k: int| 0 <= k < i ==> indices@[k] == k,
            decreases n - i,
        {
            indices.push(i);
            i += 1;
        }
        let perms: Vec<Vec<usize>> = crate::utils::permutations(&indices);
        let ghost f = |ix: usize| dv[ix as int];
        proof {
            assert(indices@.map_values(f) =~= dv);
        }
        let mut out: Vec<TypeList> = Vec::new();
        if n == 0 {
            return out;
        }
        proof {
            crate::utils::lemma_perm_seqs_map(indices@, f);
            assert(perm_seqs(dv) == perm_seqs(indices@).map_values(
                |p: Seq<usize>| p.map_values(f),
            ));
            assert(crate::utils::views_of(perms@) == perm_seqs(indices@));
        }
        let np: usize = perms.len();
        let mut j: usize = 0;
        while j < np
            invariant
                n == self.members@.len(),
                dv == self.members.deep_view(),
                dv.len() == n,
                n > 0,
                f == (|ix: usize| dv[ix as int]),
                crate::utils::views_of(perms@) == perm_seqs(indices@),
                perm_seqs(dv) == perm_seqs(indices@).map_values(
                    |p: Seq<usize>| p.map_values(f),
                ),
                indices@.len() == n,
                forall|k: int| 0 <= k < n ==> indices@[k] == k,
                np == perms@.len(),
                0 <= j <= np,
                out.deep_view() =~= perm_seqs(dv).take(j as int),
                out@.len() == j,
            decreases np - j,
        {
            let p: &Vec<usize> = &perms[j];
            let ghost pv = p@;
            proof {
                assert(crate::utils::views_of(perms@)[j as int] == pv);
                assert(perm_seqs(indices@)[j as int] == pv);
                crate::utils::lemma_perm_seqs_multiset(indices@, j as int);
                assert(pv.to_multiset() == indices@.to_multiset());
                assert forall|t2: int| 0 <= t2 < pv.len() implies pv[t2] < n by {
                    broadcast use vstd::seq_lib::group_to_multiset_ensures;

                    assert(pv.contains(pv[t2]));
                    assert(pv.to_multiset().count(pv[t2]) > 0);
                    assert(indices@.to_multiset().count(pv[t2]) > 0);
                    assert(indices@.contains(pv[t2]));
                    let w = choose|w: int|
                        0 <= w < indices@.len() && #[trigger] indices@[w] == pv[t2];
                    assert(indices@[w] == w);
                }
                assert(pv.len() == n);
            }
            let mut tl: TypeList = Vec::new();
            let pn: usize = p.len();
            let mut t: usize = 0;
            while t < pn
                invariant
                    n == self.members@.len(),
                    dv == self.members.deep_view(),
                    dv.len() == n,
                    pn == pv.len(),
                    p@ == pv,
                    forall|t2: int| 0 <= t2 < pv.len() ==> pv[t2] < n,
                    0 <= t <= pn,
                    tl.deep_view() =~= pv.map_values(|ix: usize| dv[ix as int]).take(t as int),
                    tl@.len() == t,
                decreases pn - t,
            {
                let ix: usize = p[t];
                tl.push(self.members[ix].clone());
                proof {
                    assert(tl.deep_view() =~= pv.map_values(|ix2: usize| dv[ix2 as int]).take(
                        t + 1,
                    )) by {
                        assert(tl@[t as int]@ == self.members@[ix as int]@);
                        assert(dv[ix as int] == self.members@[ix as int]@);
                        assert(forall|q: int|
                            0 <= q < t ==> (#[trigger] tl.deep_view()[q]) == pv.map_values(
                                |ix2: usize| dv[ix2 as int],
                            ).take(t as int)[q]);
                    }
                }
                t += 1;
            }
            proof {
                let g = |p2: Seq<usize>| p2.map_values(f);
                assert(pv.map_values(|ix2: usize| dv[ix2 as int]).take(pn as int) =~= pv.map_values(
                    f,
                ));
                assert(tl.deep_view() =~= pv.map_values(f));
                assert(perm_seqs(dv)[j as int] == g(pv));
                assert(tl.deep_view() =~= perm_seqs(dv)[j as int]);
            }
            out.push(tl);
            proof {
                assert(out.deep_view() =~~= perm_seqs(dv).take(j + 1)) by {
                    assert(out@.len() == j + 1);
                    assert(forall|q: int|
                        0 <= q <= j ==> (#[trigger] out.deep_view()[q]) == out@[q].deep_view());
                    assert(forall|q: int|
                        0 <= q < j ==> (#[trigger] out@[q]) == out@.take(j as int)[q]);
                }
            }
            j += 1;
        }
        proof {
            lemma_perm_seqs_len(indices@);
            assert(perm_seqs(dv).len() == perm_seqs(indices@).len());
            assert(out.deep_view() =~~= perm_seqs(dv)) by {
                assert(perm_seqs(dv).take(np as int) =~= perm_seqs(dv));
            }
        }
        out
    }
}

impl Union {
    /// The union's size under `mode`: the largest of its variants' sizes.
    pub fn size(&self, manager: &TypeManager, mode: Mode) -> (s: usize)
        requires
            manager.wf(),
            list_named(manager@, self.variants.deep_view(), manager@.len() as int),
            prod_big(manager@, self.variants.deep_view(), manager@.len() as int) <= usize::MAX,
        ensures
            s == max_size(manager@, self.variants.deep_view(), manager@.len() as int, mode),
        decreases list_rank(manager@, self.variants.deep_view()), 1int,
    {
        let ghost entries = manager@;
        let ghost dv = self.variants.deep_view();
        let ghost b = entries.len() as int;
        let mut maxi: usize = 0;
        let n: usize = self.variants.len();
        let mut idx: usize = 0;
        while idx < n
            invariant
                manager.wf(),
                entries == manager@,
                dv == self.variants.deep_view(),
                b == entries.len() as int,
                list_named(entries, dv, b),
                prod_big(entries, dv, b) <= usize::MAX,
                n == self.variants@.len(),
                dv.len() == n,
                0 <= idx <= n,
                maxi == max_size(entries, dv.take(idx as int), b, mode),
            decreases n - idx,
        {
            let ghost pre = dv.take(idx as int);
            proof {
                assert(dv[idx as int] == self.variants@[idx as int]@);
                assert(dv.take(idx + 1) =~= pre.push(dv[idx as int]));
                assert(name_before(entries, dv[idx as int], b));
            }
            let t = manager.get(&self.variants[idx]).unwrap();
            let ghost k = idx_of(entries, dv[idx as int]);
            proof {
                assert(t@ == entries[k].1);
                assert(crate::type_system::entry_ok(entries, k));
                crate::type_system::lemma_type_ok_mono(entries, entries[k].1, k, b);
                lemma_at_vs_type(entries, k, mode);
                lemma_members_big_pos(entries, dv, b);
                lemma_entry_rank(entries, k);
                lemma_list_rank_elem(entries, dv, idx as int);
                lemma_bounds_at(entries, k, mode);
                lemma_list_push(entries, pre, dv[idx as int], b, mode, 0);
            }
            let s2 = t.size(manager, mode);
            if s2 > maxi {
                maxi = s2;
            }
            idx += 1;
        }
        proof {
            assert(dv.take(n as int) =~= dv);
        }
        maxi
    }

    /// The union's alignment under `mode`: 1 for a single variant,
    /// otherwise the least common multiple of the variants' alignments.
    pub fn align(&self, manager: &TypeManager, mode: Mode) -> (a: usize)
        requires
            manager.wf(),
            list_named(manager@, self.variants.deep_view(), manager@.len() as int),
            self.variants@.len() >= 1,
            prod_big(manager@, self.variants.deep_view(), manager@.len() as int) <= usize::MAX,
        ensures
            a == union_align(manager@, self.variants.deep_view(), manager@.len() as int, mode),
        decreases list_rank(manager@, self.variants.deep_view()), 1int,
    {
        let ghost entries = manager@;
        let ghost dv = self.variants.deep_view();
        let ghost b = entries.len() as int;
        if self.variants.len() == 1 {
            return 1;
        }
        let mut l: usize = 1;
        let n: usize = self.variants.len();
        let mut idx: usize = 0;
        while idx < n
            invariant
                manager.wf(),
                entries == manager@,
                dv == self.variants.deep_view(),
                b == entries.len() as int,
                list_named(entries, dv, b),
                prod_big(entries, dv, b) <= usize::MAX,
                n == self.variants@.len(),
                dv.len() == n,
                0 <= idx <= n,
                l == lcm_fold(entries, dv.take(idx as int), b, mode),
                l >= 1,
            decreases n - idx,
        {
            let ghost pre = dv.take(idx as int);
            proof {
                assert(dv[idx as int] == self.variants@[idx as int]@);
                assert(dv.take(idx + 1) =~= pre.push(dv[idx as int]));
                assert(name_before(entries, dv[idx as int], b));
            }
            let t = manager.get(&self.variants[idx]).unwrap();
            let ghost k = idx_of(entries, dv[idx as int]);
            proof {
                assert(t@ == entries[k].1);
                assert(crate::type_system::entry_ok(entries, k));
                crate::type_system::lemma_type_ok_mono(entries, entries[k].1, k, b);
                lemma_at_vs_type(entries, k, mode);
                lemma_members_big_pos(entries, dv, b);
                lemma_entry_rank(entries, k);
                lemma_list_rank_elem(entries, dv, idx as int);
                lemma_bounds_at(entries, k, mode);
                lemma_list_push(entries, pre, dv[idx as int], b, mode, 0);
                assert forall|jj: int| 0 <= jj < pre.len() implies name_before(
                    entries,
                    #[trigger] pre[jj],
                    b,
                ) by {
                    assert(pre[jj] == dv[jj]);
                }
                lemma_bounds_list(entries, pre, b, mode);
                lemma_prefix_sums(entries, dv, b, idx as int);
                lemma_prefix_sums(entries, dv, b, idx + 1);
                let ma = align_at(entries, k, mode);
                let mb = member_big(entries, dv[idx as int], b);
                assert(ma <= mb);
                let ptj = prod_big(entries, pre, b);
                assert(prod_big(entries, dv.take(idx + 1), b) == ptj * mb);
                assert(l <= ptj);
                assert(l * ma <= ptj * mb) by (nonlinear_arith)
                    requires
                        1 <= l <= ptj && 0 <= ma <= mb,
                ;
                lemma_lcm_bounds(l as nat, ma);
            }
            let a2 = t.align(manager, mode);
            l = crate::utils::lcm(l, a2);
            idx += 1;
        }
        proof {
            assert(dv.take(n as int) =~= dv);
        }
        l
    }

    /// The padding loss of the union under `mode`: its size minus the
    /// largest packed size among the variants whose size under `mode`
    /// equals the union's.
    pub fn loss(&self, manager: &TypeManager, mode: Mode) -> (l: usize)
        requires
            manager.wf(),
            list_named(manager@, self.variants.deep_view(), manager@.len() as int),
            self.variants@.len() >= 1,
            prod_big(manager@, self.variants.deep_view(), manager@.len() as int) <= usize::MAX,
        ensures
            ({
                let entries = manager@;
                let dv = self.variants.deep_view();
                let b = entries.len() as int;
                let target = max_size(entries, dv, b, mode);
                l + tied_packed(entries, dv, b, mode, target) == target
            }),
        decreases list_rank(manager@, self.variants.deep_view()), 2int,
    {
        let ghost entries = manager@;
        let ghost dv = self.variants.deep_view();
        let ghost b = entries.len() as int;
        let size = self.size(manager, mode);
        let ghost target = max_size(entries, dv, b, mode);
        let mut packed_max: usize = 0;
        let n: usize = self.variants.len();
        let mut idx: usize = 0;
        while idx < n
            invariant
                manager.wf(),
                entries == manager@,
                dv == self.variants.deep_view(),
                b == entries.len() as int,
                list_named(entries, dv, b),
                prod_big(entries, dv, b) <= usize::MAX,
                n == self.variants@.len(),
                dv.len() == n,
                0 <= idx <= n,
                size == target,
                target == max_size(entries, dv, b, mode),
                packed_max == tied_packed(entries, dv.take(idx as int), b, mode, target),
                packed_max <= target,
            decreases n - idx,
        {
            let ghost pre = dv.take(idx as int);
            proof {
                assert(dv[idx as int] == self.variants@[idx as int]@);
                assert(dv.take(idx + 1) =~= pre.push(dv[idx as int]));
                assert(name_before(entries, dv[idx as int], b));
            }
            let t = manager.get(&self.variants[idx]).unwrap();
            let ghost k = idx_of(entries, dv[idx as int]);
            proof {
                assert(t@ == entries[k].1);
                assert(crate::type_system::entry_ok(entries, k));
                crate::type_system::lemma_type_ok_mono(entries, entries[k].1, k, b);
                lemma_at_vs_type(entries, k, mode);
                lemma_at_vs_type(entries, k, Mode::Packed);
                lemma_members_big_pos(entries, dv, b);
                lemma_entry_rank(entries, k);
                lemma_list_rank_elem(entries, dv, idx as int);
                lemma_packed_le_at(entries, k, mode);
                lemma_list_push(entries, pre, dv[idx as int], b, mode, target);
            }
            let s2 = t.size(manager, mode);
            if s2 == size {
                let ps = t.size(manager, Mode::Packed);
                if ps > packed_max {
                    packed_max = ps;
                }
            }
            idx += 1;
        }
        proof {
            assert(dv.take(n as int) =~= dv);
        }
        size - packed_max
    }
}

/// Layout queries are pure: they read only the registry's contents, so
/// repeated lookups and layout queries against an unchanged registry
/// return identical results on every call.
pub proof fn lemma_queries_pure(
    m1: TypeManager,
    m2: TypeManager,
    t: TypeV,
    n: Seq<char>,
    mode: Mode,
)
    requires
        m1@ == m2@,
    ensures
        size_of_type(m1@, t, mode) == size_of_type(m2@, t, mode),
        align_of_type(m1@, t, mode) == align_of_type(m2@, t, mode),
        contains_name(m1@, n) == contains_name(m2@, n),
        idx_of(m1@, n) == idx_of(m2@, n),
{
}

} // verus!
