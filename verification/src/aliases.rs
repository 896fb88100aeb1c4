//! Register-alias normalisation.
//!
//! The backend emits reads and writes of sub-register views (for x86:
//! AL, AH, AX as views of EAX). This pass rewrites every access to such
//! a view as an access to the widest enclosing variable of its address
//! space, using bit extraction and concatenation to preserve the
//! accessed bit range.
//!
//! The enclosing variable is found over an index of byte intervals: of
//! all indexed intervals, the fold keeps a candidate and replaces it
//! whenever an interval covers it with a strictly larger edge on either
//! side ("strictly-larger either edge wins over equal").

use vstd::prelude::*;
use vstd::arithmetic::power2::*;
use vstd::arithmetic::div_mod::*;

use crate::ecode::{UArgs, UCast, UExpr, UStmt, UTarget, UVar};

verus! {

/// Whether the half-open interval `a` covers `b` and wins the
/// tie-break: it contains `b` and is strictly larger on at least one
/// edge.
pub open spec fn covers(a: (u64, u64), b: (u64, u64)) -> bool {
    (a.0 < b.0 && a.1 >= b.1) || (a.0 <= b.0 && a.1 > b.1)
}

/// Whether `a` contains `b`, strictly or not.
pub open spec fn contains_iv(a: (u64, u64), b: (u64, u64)) -> bool {
    a.0 <= b.0 && a.1 >= b.1
}

/// Covering is transitive, also through plain containment.
proof fn lemma_covers_trans(a: (u64, u64), b: (u64, u64), c: (u64, u64))
    ensures
        covers(a, b) && covers(b, c) ==> covers(a, c),
        covers(a, b) && contains_iv(b, c) ==> covers(a, c),
        contains_iv(a, b) && covers(b, c) ==> covers(a, c),
{
}

/// The tie-break fold over an interval list: walk the list in order,
/// replacing the candidate whenever a listed interval covers it.
pub open spec fn fold_enclose(ivs: Seq<(u64, u64)>, cur: (u64, u64)) -> (u64, u64)
    decreases ivs.len(),
{
    if ivs.len() == 0 {
        cur
    } else {
        fold_enclose(
            ivs.skip(1),
            if covers(ivs[0], cur) {
                ivs[0]
            } else {
                cur
            },
        )
    }
}

/// What the fold yields: an interval that contains the start candidate,
/// is the candidate itself or a listed interval, and is covered by no
/// listed interval.
pub proof fn lemma_fold_enclose(ivs: Seq<(u64, u64)>, cur: (u64, u64))
    ensures
        contains_iv(fold_enclose(ivs, cur), cur),
        fold_enclose(ivs, cur) == cur || ivs.contains(fold_enclose(ivs, cur)),
        forall|j: int| 0 <= j < ivs.len() ==> !covers(#[trigger] ivs[j], fold_enclose(ivs, cur)),
    decreases ivs.len(),
{
    if ivs.len() == 0 {
    } else {
        let head = ivs[0];
        let cur1 = if covers(head, cur) {
            head
        } else {
            cur
        };
        lemma_fold_enclose(ivs.skip(1), cur1);
        let r = fold_enclose(ivs, cur);
        assert(r == fold_enclose(ivs.skip(1), cur1));
        assert(contains_iv(r, cur1));
        if covers(head, cur) {
            assert(contains_iv(cur1, cur));
        }
        // the head cannot cover the result
        if covers(head, r) {
            if covers(head, cur) {
                // then the candidate became the head, which the result
                // contains; covering it again would make the head a
                // strict superset of a superset of itself
                assert(contains_iv(r, head));
                assert(false);
            } else {
                // the head would then cover the original candidate too,
                // which the fold's first step ruled out
                lemma_covers_trans(head, r, cur);
                assert(false);
            }
        }
        assert forall|j: int| 0 <= j < ivs.len() implies !covers(#[trigger] ivs[j], r) by {
            if j == 0 {
            } else {
                assert(ivs[j] == ivs.skip(1)[j - 1]);
            }
        }
        if r != cur && !ivs.contains(r) {
            assert(r == cur1 || ivs.skip(1).contains(r));
            if ivs.skip(1).contains(r) {
                let j = choose|j: int| 0 <= j < ivs.skip(1).len() && ivs.skip(1)[j] == r;
                assert(ivs[j + 1] == r);
                assert(ivs.contains(r));
            } else {
                assert(r == cur1 && cur1 == head);
                assert(ivs.contains(r));
            }
        }
    }
}

/// A candidate that no listed interval covers passes the fold
/// unchanged, whatever the list's order.
pub proof fn lemma_fold_fixed(ivs: Seq<(u64, u64)>, cur: (u64, u64))
    requires
        forall|j: int| 0 <= j < ivs.len() ==> !covers(#[trigger] ivs[j], cur),
    ensures
        fold_enclose(ivs, cur) == cur,
    decreases ivs.len(),
{
    if ivs.len() > 0 {
        assert(!covers(ivs[0], cur));
        assert(forall|j: int|
            0 <= j < ivs.skip(1).len() ==> ivs.skip(1)[j] == ivs[j + 1]
                && !covers(#[trigger] ivs.skip(1)[j], cur));
        lemma_fold_fixed(ivs.skip(1), cur);
    }
}

/// The byte interval of a space variable: `[offset, offset + bits/8)`.
pub open spec fn uvar_interval_spec(v: &UVar) -> (u64, u64) {
    (v.offset, (v.offset + v.bits / 8) as u64)
}

/// A variable whose interval arithmetic stays in range.
pub open spec fn uvar_in_range(v: &UVar) -> bool {
    v.offset + v.bits / 8 <= u64::MAX
}

/// A byte-interval index for one address space.
pub struct VarIndex {
    space: u64,
    intervals: Vec<(u64, u64)>,
}

impl VarIndex {
    /// The address space indexed.
    pub closed spec fn space_spec(&self) -> u64 {
        self.space
    }

    /// The indexed intervals, in insertion order.
    pub closed spec fn ivs(&self) -> Seq<(u64, u64)> {
        self.intervals@
    }

    /// The index's validity: every indexed interval is ordered and
    /// narrow enough that its width in bits fits a word.
    pub open spec fn valid(&self) -> bool {
        forall|j: int|
            0 <= j < self.ivs().len() ==> {
                let iv = #[trigger] self.ivs()[j];
                iv.0 < iv.1 && 8 * (iv.1 - iv.0) <= u32::MAX
            }
    }

    /// The address space indexed.
    pub fn space(&self) -> (r: u64)
        ensures
            r == self.space_spec(),
    {
        self.space
    }

    /// An empty index for a space.
    pub fn empty(space: u64) -> (r: VarIndex)
        ensures
            r.space_spec() == space,
            r.ivs() =~= Seq::<(u64, u64)>::empty(),
            r.valid(),
    {
        VarIndex { space, intervals: Vec::new() }
    }

    /// An index of a register table: one interval per register, from
    /// its byte offset and byte size.
    pub fn registers(space: u64, table: &Vec<(u64, u32)>) -> (r: VarIndex)
        requires
            forall|j: int|
                0 <= j < table@.len() ==> {
                    let e = #[trigger] table@[j];
                    0 < e.1 && e.0 + e.1 <= u64::MAX && 8 * (e.1 as int) <= u32::MAX
                },
        ensures
            r.space_spec() == space,
            r.valid(),
            r.ivs().len() == table@.len(),
            forall|j: int|
                0 <= j < table@.len() ==> #[trigger] r.ivs()[j] == (
                    table@[j].0,
                    (table@[j].0 + table@[j].1) as u64,
                ),
    {
        let n = table.len();
        let mut intervals: Vec<(u64, u64)> = Vec::new();
        let mut i: usize = 0;
        while i < n
            invariant
                i <= n == table@.len(),
                intervals@.len() == i,
                forall|j: int|
                    0 <= j < table@.len() ==> {
                        let e = #[trigger] table@[j];
                        0 < e.1 && e.0 + e.1 <= u64::MAX && 8 * (e.1 as int) <= u32::MAX
                    },
                forall|j: int|
                    0 <= j < i ==> #[trigger] intervals@[j] == (
                        table@[j].0,
                        (table@[j].0 + table@[j].1) as u64,
                    ),
            decreases n - i,
        {
            let e = table[i];
            intervals.push((e.0, e.0 + e.1 as u64));
            i = i + 1;
        }
        VarIndex { space, intervals }
    }

    /// Record a variable's byte interval.
    pub fn insert(&mut self, v: &UVar)
        requires
            old(self).valid(),
            uvar_in_range(v),
            v.bits >= 8,
            v.bits % 8 == 0,
        ensures
            final(self).ivs() =~= old(self).ivs().push(uvar_interval_spec(v)),
            final(self).space_spec() == old(self).space_spec(),
            final(self).valid(),
    {
        let end = v.offset + (v.bits / 8) as u64;
        self.intervals.push((v.offset, end));
        proof {
            assert(self.ivs().last() == uvar_interval_spec(v));
            assert(8 * ((v.bits / 8) as int) == v.bits);
            assert forall|j: int| 0 <= j < self.ivs().len() implies {
                let iv = #[trigger] self.ivs()[j];
                iv.0 < iv.1 && 8 * (iv.1 - iv.0) <= u32::MAX
            } by {
                if j < self.ivs().len() - 1 {
                    assert(self.ivs()[j] == old(self).ivs()[j]);
                }
            }
        }
    }

    /// The widest enclosing variable of `v` under this index: the
    /// tie-break fold over the indexed intervals, started at `v`'s own
    /// interval. The result carries `v`'s generation.
    pub fn enclosing(&self, v: &UVar) -> (r: UVar)
        requires
            self.valid(),
            uvar_in_range(v),
            v.bits % 8 == 0,
        ensures
            r == enclosing_spec(self.ivs(), self.space_spec(), v),
    {
        let n = self.intervals.len();
        let mut cur: (u64, u64) = (v.offset, v.offset + (v.bits / 8) as u64);
        let mut i: usize = 0;
        proof {
            assert(self.ivs().skip(0) =~= self.ivs());
            assert(cur == uvar_interval_spec(v));
            assert(8 * ((v.bits / 8) as int) <= v.bits);
        }
        while i < n
            invariant
                i <= n == self.ivs().len(),
                self.valid(),
                fold_enclose(self.ivs(), uvar_interval_spec(v)) == fold_enclose(
                    self.ivs().skip(i as int),
                    cur,
                ),
                cur == uvar_interval_spec(v) || self.ivs().contains(cur),
                cur.0 <= cur.1,
                8 * (cur.1 - cur.0) <= u32::MAX,
            decreases n - i,
        {
            let e = self.intervals[i];
            proof {
                assert(self.ivs().skip(i as int)[0] == self.ivs()[i as int]);
                assert(self.ivs().skip(i as int).skip(1) =~= self.ivs().skip(i + 1));
            }
            if (e.0 < cur.0 && e.1 >= cur.1) || (e.0 <= cur.0 && e.1 > cur.1) {
                cur = e;
            }
            i = i + 1;
        }
        proof {
            assert(self.ivs().skip(n as int) =~= Seq::<(u64, u64)>::empty());
        }
        UVar {
            space: self.space,
            offset: cur.0,
            bits: (8 * (cur.1 - cur.0)) as u32,
            generation: v.generation,
        }
    }
}

/// The widest enclosing variable of `v` over an interval list: its
/// interval is the tie-break fold started at `v`'s own interval, its
/// space is the index's, and it keeps `v`'s generation.
pub open spec fn enclosing_spec(ivs: Seq<(u64, u64)>, space: u64, v: &UVar) -> UVar {
    let iv = fold_enclose(ivs, uvar_interval_spec(v));
    UVar {
        space,
        offset: iv.0,
        bits: (8 * (iv.1 - iv.0)) as u32,
        generation: v.generation,
    }
}

/// Whether a variable takes part in alias normalisation: its width is a
/// positive whole number of bytes and its interval arithmetic stays in
/// range. Other variables pass through untouched.
pub open spec fn uvar_aligned(v: UVar) -> bool {
    v.bits >= 8 && v.bits % 8 == 0 && uvar_in_range(&v)
}

/// The expression that reads or writes the slice `b` of the wider or
/// narrower variable `a`'s enclosing pair, given `e` at the other width.
///
/// When `a` is wider, the result slices `b`'s bit range out of `e`: the
/// low bits at a shared start, or the byte-shifted range otherwise. When
/// `a` is narrower, the result rebuilds `b`'s full width around `e`: the
/// enclosing variable's untouched high bits, `e`, and its untouched low
/// bits, concatenated as the offsets demand. At equal widths the
/// expression passes through.
pub open spec fn resize_spec(a: UVar, b: UVar, e: UExpr) -> UExpr {
    if a.bits > b.bits {
        if a.offset == b.offset {
            UExpr::Cast(Box::new(e), UCast::Low(b.bits))
        } else {
            let loff = 8 * (b.offset - a.offset);
            UExpr::Extract(Box::new(e), loff as usize, (loff + b.bits) as usize)
        }
    } else if a.bits < b.bits {
        if a.offset == b.offset {
            UExpr::Concat(
                Box::new(
                    UExpr::Cast(Box::new(UExpr::Var(b)), UCast::High((b.bits - a.bits) as u32)),
                ),
                Box::new(e),
            )
        } else if a.offset + a.bits / 8 == b.offset + b.bits / 8 {
            UExpr::Concat(
                Box::new(e),
                Box::new(
                    UExpr::Cast(Box::new(UExpr::Var(b)), UCast::Low((b.bits - a.bits) as u32)),
                ),
            )
        } else {
            let shift = 8 * (a.offset - b.offset);
            UExpr::Concat(
                Box::new(
                    UExpr::Cast(
                        Box::new(UExpr::Var(b)),
                        UCast::High((b.bits - a.bits - shift) as u32),
                    ),
                ),
                Box::new(
                    UExpr::Concat(
                        Box::new(e),
                        Box::new(UExpr::Cast(Box::new(UExpr::Var(b)), UCast::Low(shift as u32))),
                    ),
                ),
            )
        }
    } else {
        e
    }
}

/// Build `resize_spec(a, b, e)`, for variable pairs where one interval
/// contains the other.
fn resize_expr(a: &UVar, b: &UVar, e: UExpr) -> (r: UExpr)
    requires
        uvar_aligned(*a),
        uvar_aligned(*b),
        a.bits > b.bits ==> contains_iv(uvar_interval_spec(a), uvar_interval_spec(b)),
        a.bits < b.bits ==> contains_iv(uvar_interval_spec(b), uvar_interval_spec(a)),
    ensures
        r == resize_spec(*a, *b, e),
{
    if a.bits > b.bits {
        if a.offset == b.offset {
            UExpr::Cast(Box::new(e), UCast::Low(b.bits))
        } else {
            proof {
                assert(8 * ((b.offset - a.offset) as int) + b.bits <= a.bits) by (nonlinear_arith)
                    requires
                        a.offset <= b.offset,
                        b.offset + b.bits / 8 <= a.offset + a.bits / 8,
                        b.bits % 8 == 0,
                        a.bits % 8 == 0,
                        a.bits >= 8,
                        b.bits >= 8,
                {}
            }
            let loff = 8 * (b.offset - a.offset);
            UExpr::Extract(Box::new(e), loff as usize, (loff + b.bits as u64) as usize)
        }
    } else if a.bits < b.bits {
        if a.offset == b.offset {
            UExpr::Concat(
                Box::new(
                    UExpr::Cast(Box::new(UExpr::Var(*b)), UCast::High(b.bits - a.bits)),
                ),
                Box::new(e),
            )
        } else if a.offset + (a.bits / 8) as u64 == b.offset + (b.bits / 8) as u64 {
            UExpr::Concat(
                Box::new(e),
                Box::new(
                    UExpr::Cast(Box::new(UExpr::Var(*b)), UCast::Low(b.bits - a.bits)),
                ),
            )
        } else {
            proof {
                assert(8 * ((a.offset - b.offset) as int) + a.bits <= b.bits) by (nonlinear_arith)
                    requires
                        b.offset <= a.offset,
                        a.offset + a.bits / 8 <= b.offset + b.bits / 8,
                        b.bits % 8 == 0,
                        a.bits % 8 == 0,
                        a.bits >= 8,
                        b.bits >= 8,
                {}
            }
            let shift = 8 * (a.offset - b.offset);
            UExpr::Concat(
                Box::new(
                    UExpr::Cast(
                        Box::new(UExpr::Var(*b)),
                        UCast::High(b.bits - a.bits - shift as u32),
                    ),
                ),
                Box::new(
                    UExpr::Concat(
                        Box::new(e),
                        Box::new(UExpr::Cast(Box::new(UExpr::Var(*b)), UCast::Low(shift as u32))),
                    ),
                ),
            )
        }
    } else {
        e
    }
}

/// Finding the enclosing variable twice under one index finds the same
/// variable: the fold's result is covered by no indexed interval, so a
/// second fold keeps it.
pub proof fn lemma_enclosing_idempotent(ivs: Seq<(u64, u64)>, space: u64, v: &UVar)
    requires
        uvar_in_range(v),
        v.bits % 8 == 0,
        forall|j: int|
            0 <= j < ivs.len() ==> {
                let iv = #[trigger] ivs[j];
                iv.0 <= iv.1 && 8 * (iv.1 - iv.0) <= u32::MAX
            },
    ensures
        enclosing_spec(ivs, space, &enclosing_spec(ivs, space, v)) == enclosing_spec(
            ivs,
            space,
            v,
        ),
{
    let r = fold_enclose(ivs, uvar_interval_spec(v));
    lemma_fold_enclose(ivs, uvar_interval_spec(v));
    let rv = enclosing_spec(ivs, space, v);
    if ivs.contains(r) {
        let j = choose|j: int| 0 <= j < ivs.len() && ivs[j] == r;
        assert(r.0 <= r.1 && 8 * (r.1 - r.0) <= u32::MAX);
    } else {
        assert(r == uvar_interval_spec(v));
    }
    assert(uvar_interval_spec(&rv) == r);
    lemma_fold_fixed(ivs, r);
}

/// The interval list of the first index for a space, or the empty list
/// when no index covers the space.
pub open spec fn ivs_for(s: Seq<VarIndex>, space: u64) -> Seq<(u64, u64)>
    decreases s.len(),
{
    if s.len() == 0 {
        Seq::empty()
    } else if s[0].space_spec() == space {
        s[0].ivs()
    } else {
        ivs_for(s.skip(1), space)
    }
}

/// The register-alias normalisation pass: a fixed register index and a
/// per-space index of the variables seen in the current micro-op
/// sequence.
pub struct AliasPass {
    registers: VarIndex,
    indexes: Vec<VarIndex>,
}

impl AliasPass {
    /// The register space.
    pub closed spec fn reg_space(&self) -> u64 {
        self.registers.space_spec()
    }

    /// The register intervals.
    pub closed spec fn reg_ivs(&self) -> Seq<(u64, u64)> {
        self.registers.ivs()
    }

    /// The intervals indexed for a non-register space.
    pub closed spec fn space_ivs(&self, space: u64) -> Seq<(u64, u64)> {
        ivs_for(self.indexes@, space)
    }

    /// The pass's validity: all indexes are valid.
    pub closed spec fn valid(&self) -> bool {
        &&& self.registers.valid()
        &&& forall|j: int| 0 <= j < self.indexes@.len() ==> (#[trigger] self.indexes@[j]).valid()
        &&& forall|j: int|
            0 <= j < self.indexes@.len() ==> (#[trigger] self.indexes@[j]).space_spec()
                != self.registers.space_spec()
    }

    /// The interval list that decides a variable's enclosing variable:
    /// the register index for the register space, the per-space index
    /// otherwise.
    pub open spec fn ivs_of(&self, space: u64) -> Seq<(u64, u64)> {
        if space == self.reg_space() {
            self.reg_ivs()
        } else {
            self.space_ivs(space)
        }
    }

    /// The enclosing variable of `v` under the pass's indexes; a
    /// variable that takes no part in normalisation is its own
    /// enclosing variable.
    pub open spec fn enclosing_v(&self, v: UVar) -> UVar {
        if !uvar_aligned(v) {
            v
        } else {
            enclosing_spec(self.ivs_of(v.space), v.space, &v)
        }
    }

    /// A fresh pass over a register index.
    pub fn new(registers: VarIndex) -> (r: AliasPass)
        requires
            registers.valid(),
        ensures
            r.valid(),
            r.reg_space() == registers.space_spec(),
            r.reg_ivs() == registers.ivs(),
            forall|s: u64| #[trigger] r.space_ivs(s) =~= Seq::<(u64, u64)>::empty(),
    {
        AliasPass { registers, indexes: Vec::new() }
    }

    /// Find the position of the index for a space.
    fn find_space(&self, space: u64) -> (r: Option<usize>)
        ensures
            r matches Some(p) ==> {
                &&& 0 <= p < self.indexes@.len()
                &&& self.indexes@[p as int].space_spec() == space
                &&& forall|j: int|
                    0 <= j < p ==> (#[trigger] self.indexes@[j]).space_spec() != space
            },
            r is None ==> forall|j: int|
                0 <= j < self.indexes@.len() ==> (#[trigger] self.indexes@[j]).space_spec()
                    != space,
    {
        let n = self.indexes.len();
        let mut i: usize = 0;
        while i < n
            invariant
                i <= n == self.indexes@.len(),
                forall|j: int|
                    0 <= j < i ==> (#[trigger] self.indexes@[j]).space_spec() != space,
            decreases n - i,
        {
            if self.indexes[i].space() == space {
                return Some(i);
            }
            i = i + 1;
        }
        None
    }

    /// Record one variable in its space's index; register-space
    /// variables and variables that take no part are not recorded.
    pub fn insert_var(&mut self, v: &UVar)
        requires
            old(self).valid(),
        ensures
            final(self).valid(),
            final(self).reg_space() == old(self).reg_space(),
            final(self).reg_ivs() == old(self).reg_ivs(),
            (uvar_aligned(*v) && v.space != old(self).reg_space()) ==> final(self).space_ivs(
                v.space,
            ) =~= old(self).space_ivs(v.space).push(uvar_interval_spec(v)),
            !(uvar_aligned(*v) && v.space != old(self).reg_space()) ==> final(self).space_ivs(
                v.space,
            ) == old(self).space_ivs(v.space),
            forall|s: u64|
                s != v.space ==> #[trigger] final(self).space_ivs(s) == old(self).space_ivs(s),
    {
        let aligned = v.bits >= 8 && v.bits % 8 == 0 && v.offset <= u64::MAX - (v.bits / 8) as u64;
        if !aligned || v.space == self.registers.space() {
            return ;
        }
        match self.find_space(v.space) {
            Some(p) => {
                let ghost idx0 = self.indexes@;
                let mut tmp = self.indexes.remove(p);
                tmp.insert(v);
                self.indexes.insert(p, tmp);
                proof {
                    assert(self.indexes@ =~= idx0.update(
                        p as int,
                        self.indexes@[p as int],
                    ));
                    lemma_ivs_for_update(idx0, self.indexes@, p as int, v.space);
                    assert forall|s: u64| s != v.space implies #[trigger] ivs_for(
                        self.indexes@,
                        s,
                    ) == ivs_for(idx0, s) by {
                        lemma_ivs_for_other(idx0, self.indexes@, p as int, s);
                    }
                }
            },
            None => {
                let ghost idx0 = self.indexes@;
                let mut nidx = VarIndex::empty(v.space);
                nidx.insert(v);
                self.indexes.push(nidx);
                proof {
                    assert(self.indexes@ =~= idx0.push(self.indexes@[idx0.len() as int]));
                    lemma_ivs_for_append(idx0, self.indexes@[idx0.len() as int], v.space);
                    if forall|j: int|
                        0 <= j < idx0.len() ==> (#[trigger] idx0[j]).space_spec() != v.space {
                        lemma_ivs_for_none(idx0, v.space);
                    }
                    assert forall|s: u64| s != v.space implies #[trigger] ivs_for(
                        self.indexes@,
                        s,
                    ) == ivs_for(idx0, s) by {
                        lemma_ivs_for_append(idx0, self.indexes@[idx0.len() as int], s);
                        if forall|j: int|
                            0 <= j < idx0.len() ==> (#[trigger] idx0[j]).space_spec() != s {
                            lemma_ivs_for_none(idx0, s);
                        }
                    }
                }
            },
        }
    }

    /// The enclosing variable of `v` under the pass's indexes.
    pub fn enclosing_of(&self, v: &UVar) -> (r: UVar)
        requires
            self.valid(),
        ensures
            r == self.enclosing_v(*v),
    {
        let aligned = v.bits >= 8 && v.bits % 8 == 0 && v.offset <= u64::MAX - (v.bits / 8) as u64;
        if !aligned {
            return *v;
        }
        if v.space == self.registers.space() {
            return self.registers.enclosing(v);
        }
        match self.find_space(v.space) {
            Some(p) => {
                proof {
                    lemma_ivs_for_first(self.indexes@, p as int, v.space);
                }
                self.indexes[p].enclosing(v)
            },
            None => {
                proof {
                    lemma_ivs_for_none(self.indexes@, v.space);
                    assert(fold_enclose(Seq::<(u64, u64)>::empty(), uvar_interval_spec(v))
                        == uvar_interval_spec(v));
                }
                *v
            },
        }
    }
}

/// Updating one index in place changes only its own space's lookup,
/// provided the earlier indexes keep their spaces.
proof fn lemma_ivs_for_update(s0: Seq<VarIndex>, s1: Seq<VarIndex>, p: int, space: u64)
    requires
        0 <= p < s0.len(),
        s1.len() == s0.len(),
        s0[p].space_spec() == space,
        s1[p].space_spec() == space,
        forall|j: int| 0 <= j < s0.len() && j != p ==> s0[j] == s1[j],
        forall|j: int| 0 <= j < p ==> (#[trigger] s0[j]).space_spec() != space,
    ensures
        ivs_for(s1, space) == s1[p].ivs(),
        ivs_for(s0, space) == s0[p].ivs(),
    decreases p,
{
    if p == 0 {
    } else {
        assert(s0.skip(1)[p - 1] == s0[p]);
        assert(forall|j: int| 0 <= j < s0.skip(1).len() && j != p - 1 ==> s0.skip(1)[j] == #[trigger] s1.skip(1)[j]);
        assert(forall|j: int| 0 <= j < p - 1 ==> (#[trigger] s0.skip(1)[j]).space_spec() != space);
        lemma_ivs_for_update(s0.skip(1), s1.skip(1), p - 1, space);
    }
}

/// Updating one index in place leaves every other space's lookup alone.
proof fn lemma_ivs_for_other(s0: Seq<VarIndex>, s1: Seq<VarIndex>, p: int, space: u64)
    requires
        0 <= p < s0.len(),
        s1.len() == s0.len(),
        s0[p].space_spec() != space,
        s1[p].space_spec() != space,
        forall|j: int| 0 <= j < s0.len() && j != p ==> s0[j] == s1[j],
    ensures
        ivs_for(s1, space) == ivs_for(s0, space),
    decreases s0.len(),
{
    if s0.len() > 0 {
        if p == 0 {
            assert(s0.skip(1) =~= s1.skip(1));
        } else {
            assert(s0[0] == s1[0]);
            if s0[0].space_spec() == space {
            } else {
                lemma_ivs_for_other(s0.skip(1), s1.skip(1), p - 1, space);
            }
        }
    }
}

/// Appending an index changes only lookups that found nothing before.
proof fn lemma_ivs_for_append(s0: Seq<VarIndex>, x: VarIndex, space: u64)
    ensures
        (forall|j: int| 0 <= j < s0.len() ==> (#[trigger] s0[j]).space_spec() != space)
            ==> ivs_for(s0.push(x), space) == if x.space_spec() == space {
            x.ivs()
        } else {
            Seq::<(u64, u64)>::empty()
        },
        (exists|j: int| 0 <= j < s0.len() && (#[trigger] s0[j]).space_spec() == space)
            ==> ivs_for(s0.push(x), space) == ivs_for(s0, space),
    decreases s0.len(),
{
    if forall|j: int| 0 <= j < s0.len() ==> (#[trigger] s0[j]).space_spec() != space {
        assert(forall|j: int| 0 <= j < s0.len() ==> #[trigger] s0.push(x)[j] == s0[j]);
        if x.space_spec() == space {
            assert(s0.push(x)[s0.len() as int] == x);
            lemma_ivs_for_first(s0.push(x), s0.len() as int, space);
        } else {
            lemma_ivs_for_none(s0.push(x), space);
        }
    }
    if exists|j: int| 0 <= j < s0.len() && (#[trigger] s0[j]).space_spec() == space {
        if s0[0].space_spec() == space {
            assert(s0.push(x)[0] == s0[0]);
            assert(ivs_for(s0.push(x), space) == s0[0].ivs());
        } else {
            assert(s0.push(x)[0] == s0[0]);
            assert(s0.push(x).skip(1) =~= s0.skip(1).push(x));
            let j = choose|j: int| 0 <= j < s0.len() && (#[trigger] s0[j]).space_spec() == space;
            assert(s0.skip(1)[j - 1] == s0[j]);
            assert(exists|k: int|
                0 <= k < s0.skip(1).len() && (#[trigger] s0.skip(1)[k]).space_spec() == space);
            lemma_ivs_for_append(s0.skip(1), x, space);
        }
    }
}

/// The first index for a space decides its lookup.
proof fn lemma_ivs_for_first(s: Seq<VarIndex>, p: int, space: u64)
    requires
        0 <= p < s.len(),
        s[p].space_spec() == space,
        forall|j: int| 0 <= j < p ==> (#[trigger] s[j]).space_spec() != space,
    ensures
        ivs_for(s, space) == s[p].ivs(),
    decreases p,
{
    if p > 0 {
        assert(s.skip(1)[p - 1] == s[p]);
        assert(forall|j: int| 0 <= j < p - 1 ==> (#[trigger] s.skip(1)[j]).space_spec() != space);
        lemma_ivs_for_first(s.skip(1), p - 1, space);
    }
}

/// An interval list whose every entry is ordered and word-narrow.
pub open spec fn ivs_ok(ivs: Seq<(u64, u64)>) -> bool {
    forall|j: int|
        0 <= j < ivs.len() ==> {
            let iv = #[trigger] ivs[j];
            iv.0 < iv.1 && 8 * (iv.1 - iv.0) <= u32::MAX
        }
}

/// What the enclosing variable looks like: it is aligned, it keeps the
/// generation and space, its interval is the fold's result, and it
/// contains the variable it encloses.
pub proof fn lemma_enclosing_props(ivs: Seq<(u64, u64)>, space: u64, v: UVar)
    requires
        ivs_ok(ivs),
        uvar_aligned(v),
    ensures
        ({
            let pv = enclosing_spec(ivs, space, &v);
            &&& uvar_aligned(pv)
            &&& pv.generation == v.generation
            &&& pv.space == space
            &&& uvar_interval_spec(&pv) == fold_enclose(ivs, uvar_interval_spec(&v))
            &&& contains_iv(uvar_interval_spec(&pv), uvar_interval_spec(&v))
            &&& pv.bits >= v.bits
        }),
{
    let cur = uvar_interval_spec(&v);
    let r = fold_enclose(ivs, cur);
    lemma_fold_enclose(ivs, cur);
    if ivs.contains(r) {
        let j = choose|j: int| 0 <= j < ivs.len() && ivs[j] == r;
        assert(r.0 < r.1 && 8 * (r.1 - r.0) <= u32::MAX);
    } else {
        assert(r == cur);
    }
    let pv = enclosing_spec(ivs, space, &v);
    assert(pv.bits == 8 * (r.1 - r.0));
    assert(uvar_interval_spec(&pv) == r);
}

impl AliasPass {
    /// Whether the interval list deciding a space's enclosing variables
    /// is well formed; it is whenever the pass is valid.
    pub open spec fn ivs_of_ok(&self, space: u64) -> bool {
        ivs_ok(self.ivs_of(space))
    }

    /// A valid pass has well-formed interval lists for every space.
    pub proof fn lemma_valid_ivs(&self, space: u64)
        requires
            self.valid(),
        ensures
            self.ivs_of_ok(space),
    {
        if space != self.reg_space() {
            lemma_ivs_for_ok(self.indexes@, space);
        }
    }
}

/// Looking up any space in a list of valid indexes yields a well-formed
/// interval list.
proof fn lemma_ivs_for_ok(s: Seq<VarIndex>, space: u64)
    requires
        forall|j: int| 0 <= j < s.len() ==> (#[trigger] s[j]).valid(),
    ensures
        ivs_ok(ivs_for(s, space)),
    decreases s.len(),
{
    if s.len() > 0 && s[0].space_spec() != space {
        assert(forall|j: int| 0 <= j < s.skip(1).len() ==> (#[trigger] s.skip(1)[j]).valid());
        lemma_ivs_for_ok(s.skip(1), space);
    }
}

/// The rewrite of one variable read: the enclosing variable's read,
/// resized back to the read bit range.
pub open spec fn rewrite_var_spec(p: &AliasPass, v: UVar) -> UExpr {
    let pv = p.enclosing_v(v);
    resize_spec(pv, v, UExpr::Var(pv))
}

/// The rewrite of an expression: every variable read is replaced by its
/// enclosing variable's read, resized to the original range.
pub open spec fn rewrite_expr_spec(p: &AliasPass, e: UExpr) -> UExpr
    decreases e,
{
    match e {
        UExpr::Val(bv) => UExpr::Val(bv),
        UExpr::Var(v) => rewrite_var_spec(p, v),
        UExpr::Cast(x, c) => UExpr::Cast(Box::new(rewrite_expr_spec(p, *x)), c),
        UExpr::UnOp(op, x) => UExpr::UnOp(op, Box::new(rewrite_expr_spec(p, *x))),
        UExpr::UnRel(op, x) => UExpr::UnRel(op, Box::new(rewrite_expr_spec(p, *x))),
        UExpr::BinOp(op, x, y) => UExpr::BinOp(
            op,
            Box::new(rewrite_expr_spec(p, *x)),
            Box::new(rewrite_expr_spec(p, *y)),
        ),
        UExpr::BinRel(op, x, y) => UExpr::BinRel(
            op,
            Box::new(rewrite_expr_spec(p, *x)),
            Box::new(rewrite_expr_spec(p, *y)),
        ),
        UExpr::Load(x, sz, sp) => UExpr::Load(Box::new(rewrite_expr_spec(p, *x)), sz, sp),
        UExpr::Extract(x, l, m) => UExpr::Extract(Box::new(rewrite_expr_spec(p, *x)), l, m),
        UExpr::Concat(x, y) => UExpr::Concat(
            Box::new(rewrite_expr_spec(p, *x)),
            Box::new(rewrite_expr_spec(p, *y)),
        ),
        UExpr::IfElse(c, x, y) => UExpr::IfElse(
            Box::new(rewrite_expr_spec(p, *c)),
            Box::new(rewrite_expr_spec(p, *x)),
            Box::new(rewrite_expr_spec(p, *y)),
        ),
        UExpr::Call(t, args, b) => UExpr::Call(
            Box::new(rewrite_expr_spec(p, *t)),
            rewrite_args_spec(p, args),
            b,
        ),
        UExpr::Intrinsic(name, args, b) => UExpr::Intrinsic(name, rewrite_args_spec(p, args), b),
    }
}

/// The rewrite of an argument list.
pub open spec fn rewrite_args_spec(p: &AliasPass, a: UArgs) -> UArgs
    decreases a,
{
    match a {
        UArgs::Nil => UArgs::Nil,
        UArgs::More(e, rest) => UArgs::More(
            Box::new(rewrite_expr_spec(p, *e)),
            Box::new(rewrite_args_spec(p, *rest)),
        ),
    }
}

/// The rewrite of a branch target: a computed target's expression is
/// rewritten; a fixed location is untouched.
pub open spec fn rewrite_target_spec(p: &AliasPass, t: UTarget) -> UTarget {
    match t {
        UTarget::Location(loc) => UTarget::Location(loc),
        UTarget::Computed(e) => UTarget::Computed(rewrite_expr_spec(p, e)),
    }
}

/// The rewrite of a statement. An assignment's right side is rewritten
/// first; then the write itself retargets the enclosing variable,
/// embedding the right side in the enclosing variable's width at the
/// written slice, with the target's generation carried over.
pub open spec fn rewrite_stmt_spec(p: &AliasPass, s: UStmt) -> UStmt {
    match s {
        UStmt::Assign(var, rhs) => {
            let pv = p.enclosing_v(var);
            UStmt::Assign(pv, resize_spec(var, pv, rewrite_expr_spec(p, rhs)))
        },
        UStmt::Store(d, x, sz, sp) => UStmt::Store(
            rewrite_expr_spec(p, d),
            rewrite_expr_spec(p, x),
            sz,
            sp,
        ),
        UStmt::Branch(t) => UStmt::Branch(rewrite_target_spec(p, t)),
        UStmt::CBranch(c, t) => UStmt::CBranch(rewrite_expr_spec(p, c), rewrite_target_spec(p, t)),
        UStmt::Call(t, args) => UStmt::Call(rewrite_target_spec(p, t), rewrite_args_spec(p, args)),
        UStmt::Return(t) => UStmt::Return(rewrite_target_spec(p, t)),
        UStmt::Intrinsic(name, args) => UStmt::Intrinsic(name, rewrite_args_spec(p, args)),
        UStmt::Skip => UStmt::Skip,
    }
}

/// The variable occurrences of an expression, in visit order.
pub open spec fn uvars_of_expr(e: &UExpr) -> Seq<UVar>
    decreases *e,
{
    match e {
        UExpr::Val(_) => Seq::empty(),
        UExpr::Var(v) => seq![*v],
        UExpr::Cast(x, _) => uvars_of_expr(x),
        UExpr::UnOp(_, x) => uvars_of_expr(x),
        UExpr::UnRel(_, x) => uvars_of_expr(x),
        UExpr::BinOp(_, x, y) => uvars_of_expr(x) + uvars_of_expr(y),
        UExpr::BinRel(_, x, y) => uvars_of_expr(x) + uvars_of_expr(y),
        UExpr::Load(x, _, _) => uvars_of_expr(x),
        UExpr::Extract(x, _, _) => uvars_of_expr(x),
        UExpr::Concat(x, y) => uvars_of_expr(x) + uvars_of_expr(y),
        UExpr::IfElse(c, x, y) => uvars_of_expr(c) + uvars_of_expr(x) + uvars_of_expr(y),
        UExpr::Call(t, args, _) => uvars_of_expr(t) + uvars_of_args(args),
        UExpr::Intrinsic(_, args, _) => uvars_of_args(args),
    }
}

/// The variable occurrences of an argument list, in visit order.
pub open spec fn uvars_of_args(a: &UArgs) -> Seq<UVar>
    decreases *a,
{
    match a {
        UArgs::Nil => Seq::empty(),
        UArgs::More(e, rest) => uvars_of_expr(e) + uvars_of_args(rest),
    }
}

/// The variable occurrences of a branch target.
pub open spec fn uvars_of_target(t: &UTarget) -> Seq<UVar> {
    match t {
        UTarget::Location(_) => Seq::empty(),
        UTarget::Computed(e) => uvars_of_expr(e),
    }
}

/// The variable occurrences of a statement, an assignment's target
/// first.
pub open spec fn uvars_of_stmt(s: &UStmt) -> Seq<UVar> {
    match s {
        UStmt::Assign(v, rhs) => seq![*v] + uvars_of_expr(rhs),
        UStmt::Store(d, x, _, _) => uvars_of_expr(d) + uvars_of_expr(x),
        UStmt::Branch(t) => uvars_of_target(t),
        UStmt::CBranch(c, t) => uvars_of_expr(c) + uvars_of_target(t),
        UStmt::Call(t, args) => uvars_of_target(t) + uvars_of_args(args),
        UStmt::Return(t) => uvars_of_target(t),
        UStmt::Intrinsic(_, args) => uvars_of_args(args),
        UStmt::Skip => Seq::empty(),
    }
}

/// The intervals the index phase records for space `sp` out of a
/// variable sequence: one per aligned occurrence in that space, in
/// order, and none for the register space.
pub open spec fn inserted_for(sp: u64, reg: u64, vs: Seq<UVar>) -> Seq<(u64, u64)>
    decreases vs.len(),
{
    if vs.len() == 0 {
        Seq::empty()
    } else {
        let head = if uvar_aligned(vs[0]) && vs[0].space == sp && sp != reg {
            seq![uvar_interval_spec(&vs[0])]
        } else {
            Seq::<(u64, u64)>::empty()
        };
        head + inserted_for(sp, reg, vs.skip(1))
    }
}


/// Nothing recorded: the pass is unchanged.
proof fn lemma_indexed_refl(p: &AliasPass)
    requires
        p.valid(),
    ensures
        AliasPass::indexed(p, p, Seq::empty()),
{
    assert forall|sp: u64| #[trigger] p.space_ivs(sp) =~= p.space_ivs(sp) + inserted_for(
        sp,
        p.reg_space(),
        Seq::empty(),
    ) by {
        assert(inserted_for(sp, p.reg_space(), Seq::empty()) =~= Seq::<(u64, u64)>::empty());
    }
}

/// One recorded occurrence: what `insert_var` leaves behind.
proof fn lemma_indexed_single(p0: &AliasPass, p1: &AliasPass, v: UVar)
    requires
        p1.valid(),
        p1.reg_space() == p0.reg_space(),
        p1.reg_ivs() == p0.reg_ivs(),
        (uvar_aligned(v) && v.space != p0.reg_space()) ==> p1.space_ivs(v.space) =~= p0.space_ivs(
            v.space,
        ).push(uvar_interval_spec(&v)),
        !(uvar_aligned(v) && v.space != p0.reg_space()) ==> p1.space_ivs(v.space) == p0.space_ivs(
            v.space,
        ),
        forall|s: u64| s != v.space ==> #[trigger] p1.space_ivs(s) == p0.space_ivs(s),
    ensures
        AliasPass::indexed(p0, p1, seq![v]),
{
    assert forall|sp: u64| #[trigger] p1.space_ivs(sp) =~= p0.space_ivs(sp) + inserted_for(
        sp,
        p0.reg_space(),
        seq![v],
    ) by {
        assert(seq![v].skip(1) =~= Seq::<UVar>::empty());
        assert(inserted_for(sp, p0.reg_space(), Seq::<UVar>::empty()) =~= Seq::<(u64, u64)>::empty());
        if uvar_aligned(v) && v.space == sp && sp != p0.reg_space() {
            assert(inserted_for(sp, p0.reg_space(), seq![v]) =~= seq![uvar_interval_spec(&v)]);
        } else {
            assert(inserted_for(sp, p0.reg_space(), seq![v]) =~= Seq::<(u64, u64)>::empty());
        }
    }
}

/// Recording composes: visiting one subterm after another records the
/// concatenation of their occurrences.
proof fn lemma_indexed_trans(
    p0: &AliasPass,
    p1: &AliasPass,
    p2: &AliasPass,
    a: Seq<UVar>,
    b: Seq<UVar>,
)
    requires
        AliasPass::indexed(p0, p1, a),
        AliasPass::indexed(p1, p2, b),
    ensures
        AliasPass::indexed(p0, p2, a + b),
{
    assert forall|sp: u64| #[trigger] p2.space_ivs(sp) =~= p0.space_ivs(sp) + inserted_for(
        sp,
        p0.reg_space(),
        a + b,
    ) by {
        lemma_inserted_concat(sp, p0.reg_space(), a, b);
        assert(p1.space_ivs(sp) =~= p0.space_ivs(sp) + inserted_for(sp, p0.reg_space(), a));
        assert(p2.space_ivs(sp) =~= p1.space_ivs(sp) + inserted_for(sp, p1.reg_space(), b));
    }
}

/// The variable occurrences of a statement sequence, in order.
pub open spec fn uvars_of_stmts(ss: Seq<UStmt>) -> Seq<UVar>
    decreases ss.len(),
{
    if ss.len() == 0 {
        Seq::empty()
    } else {
        uvars_of_stmt(&ss[0]) + uvars_of_stmts(ss.skip(1))
    }
}

/// One more statement appends its occurrences.
proof fn lemma_uvars_stmts_snoc(ss: Seq<UStmt>, i: int)
    requires
        0 <= i < ss.len(),
    ensures
        uvars_of_stmts(ss.take(i + 1)) =~= uvars_of_stmts(ss.take(i)) + uvars_of_stmt(&ss[i]),
    decreases i,
{
    if i == 0 {
        assert(ss.take(1)[0] == ss[0]);
        assert(ss.take(1).skip(1) =~= Seq::<UStmt>::empty());
        assert(ss.take(0) =~= Seq::<UStmt>::empty());
        assert(ss.take(1).len() == 1);
        assert(uvars_of_stmts(Seq::<UStmt>::empty()) =~= Seq::<UVar>::empty());
        assert(uvars_of_stmts(ss.take(1)) == uvars_of_stmt(&ss.take(1)[0]) + uvars_of_stmts(
            ss.take(1).skip(1),
        ));
        assert(uvars_of_stmt(&ss[0]) + Seq::<UVar>::empty() =~= uvars_of_stmt(&ss[0]));
        assert(uvars_of_stmts(ss.take(1)) =~= uvars_of_stmt(&ss[0]));
    } else {
        assert(ss.take(i + 1)[0] == ss[0]);
        assert(ss.take(i)[0] == ss[0]);
        assert(ss.take(i + 1).skip(1) =~= ss.skip(1).take(i));
        assert(ss.take(i).skip(1) =~= ss.skip(1).take(i - 1));
        assert(ss.skip(1)[i - 1] == ss[i]);
        lemma_uvars_stmts_snoc(ss.skip(1), i - 1);
        assert(uvars_of_stmt(&ss[0]) + (uvars_of_stmts(ss.skip(1).take(i - 1)) + uvars_of_stmt(
            &ss[i],
        )) =~= (uvars_of_stmt(&ss[0]) + uvars_of_stmts(ss.skip(1).take(i - 1))) + uvars_of_stmt(
            &ss[i],
        ));
    }
}

/// Recording splits over concatenation.
proof fn lemma_inserted_concat(sp: u64, reg: u64, a: Seq<UVar>, b: Seq<UVar>)
    ensures
        inserted_for(sp, reg, a + b) =~= inserted_for(sp, reg, a) + inserted_for(sp, reg, b),
    decreases a.len(),
{
    if a.len() == 0 {
        assert(a + b =~= b);
        assert(inserted_for(sp, reg, a) =~= Seq::<(u64, u64)>::empty());
    } else {
        assert((a + b)[0] == a[0]);
        assert((a + b).skip(1) =~= a.skip(1) + b);
        lemma_inserted_concat(sp, reg, a.skip(1), b);
    }
}

impl AliasPass {
    /// What the index phase adds for one visited subterm: every space's
    /// interval list grows by exactly the recorded intervals of the
    /// subterm's variable occurrences.
    pub open spec fn indexed(p0: &AliasPass, p1: &AliasPass, vs: Seq<UVar>) -> bool {
        &&& p1.valid()
        &&& p1.reg_space() == p0.reg_space()
        &&& p1.reg_ivs() == p0.reg_ivs()
        &&& forall|sp: u64|
            #[trigger] p1.space_ivs(sp) =~= p0.space_ivs(sp) + inserted_for(
                sp,
                p0.reg_space(),
                vs,
            )
    }

    /// Record every variable occurring in an expression.
    pub fn index_expr(&mut self, e: &UExpr)
        requires
            old(self).valid(),
        ensures
            AliasPass::indexed(old(self), final(self), uvars_of_expr(e)),
        decreases *e,
    {
        let ghost s0 = *self;
        match e {
            UExpr::Val(_) => {
                proof {
                    lemma_indexed_refl(&s0);
                }
            },
            UExpr::Var(v) => {
                self.insert_var(v);
                proof {
                    lemma_indexed_single(&s0, &*self, *v);
                }
            },
            UExpr::Cast(x, _) => self.index_expr(x),
            UExpr::UnOp(_, x) => self.index_expr(x),
            UExpr::UnRel(_, x) => self.index_expr(x),
            UExpr::BinOp(_, x, y) => {
                self.index_expr(x);
                let ghost s1 = *self;
                self.index_expr(y);
                proof {
                    lemma_indexed_trans(&s0, &s1, &*self, uvars_of_expr(x), uvars_of_expr(y));
                }
            },
            UExpr::BinRel(_, x, y) => {
                self.index_expr(x);
                let ghost s1 = *self;
                self.index_expr(y);
                proof {
                    lemma_indexed_trans(&s0, &s1, &*self, uvars_of_expr(x), uvars_of_expr(y));
                }
            },
            UExpr::Load(x, _, _) => self.index_expr(x),
            UExpr::Extract(x, _, _) => self.index_expr(x),
            UExpr::Concat(x, y) => {
                self.index_expr(x);
                let ghost s1 = *self;
                self.index_expr(y);
                proof {
                    lemma_indexed_trans(&s0, &s1, &*self, uvars_of_expr(x), uvars_of_expr(y));
                }
            },
            UExpr::IfElse(c, x, y) => {
                self.index_expr(c);
                let ghost s1 = *self;
                self.index_expr(x);
                let ghost s2 = *self;
                proof {
                    lemma_indexed_trans(&s0, &s1, &s2, uvars_of_expr(c), uvars_of_expr(x));
                }
                self.index_expr(y);
                proof {
                    lemma_indexed_trans(
                        &s0,
                        &s2,
                        &*self,
                        uvars_of_expr(c) + uvars_of_expr(x),
                        uvars_of_expr(y),
                    );
                }
            },
            UExpr::Call(t, args, _) => {
                self.index_expr(t);
                let ghost s1 = *self;
                self.index_args(args);
                proof {
                    lemma_indexed_trans(&s0, &s1, &*self, uvars_of_expr(t), uvars_of_args(args));
                }
            },
            UExpr::Intrinsic(_, args, _) => self.index_args(args),
        }
    }

    /// Record every variable occurring in an argument list.
    pub fn index_args(&mut self, a: &UArgs)
        requires
            old(self).valid(),
        ensures
            AliasPass::indexed(old(self), final(self), uvars_of_args(a)),
        decreases *a,
    {
        let ghost s0 = *self;
        match a {
            UArgs::Nil => {
                proof {
                    lemma_indexed_refl(&s0);
                }
            },
            UArgs::More(e, rest) => {
                self.index_expr(e);
                let ghost s1 = *self;
                self.index_args(rest);
                proof {
                    lemma_indexed_trans(&s0, &s1, &*self, uvars_of_expr(e), uvars_of_args(rest));
                }
            },
        }
    }

    /// Record every variable occurring in a statement, the target of an
    /// assignment included.
    pub fn index_stmt(&mut self, s: &UStmt)
        requires
            old(self).valid(),
        ensures
            AliasPass::indexed(old(self), final(self), uvars_of_stmt(s)),
    {
        let ghost s0 = *self;
        match s {
            UStmt::Assign(var, rhs) => {
                self.insert_var(var);
                let ghost s1 = *self;
                proof {
                    lemma_indexed_single(&s0, &s1, *var);
                }
                self.index_expr(rhs);
                proof {
                    lemma_indexed_trans(&s0, &s1, &*self, seq![*var], uvars_of_expr(rhs));
                }
            },
            UStmt::Store(d, x, _, _) => {
                self.index_expr(d);
                let ghost s1 = *self;
                self.index_expr(x);
                proof {
                    lemma_indexed_trans(&s0, &s1, &*self, uvars_of_expr(d), uvars_of_expr(x));
                }
            },
            UStmt::Branch(t) => self.index_target(t),
            UStmt::CBranch(c, t) => {
                self.index_expr(c);
                let ghost s1 = *self;
                self.index_target(t);
                proof {
                    lemma_indexed_trans(&s0, &s1, &*self, uvars_of_expr(c), uvars_of_target(t));
                }
            },
            UStmt::Call(t, args) => {
                self.index_target(t);
                let ghost s1 = *self;
                self.index_args(args);
                proof {
                    lemma_indexed_trans(&s0, &s1, &*self, uvars_of_target(t), uvars_of_args(args));
                }
            },
            UStmt::Return(t) => self.index_target(t),
            UStmt::Intrinsic(_, args) => self.index_args(args),
            UStmt::Skip => {
                proof {
                    lemma_indexed_refl(&s0);
                }
            },
        }
    }

    /// Record every variable occurring in a branch target.
    pub fn index_target(&mut self, t: &UTarget)
        requires
            old(self).valid(),
        ensures
            AliasPass::indexed(old(self), final(self), uvars_of_target(t)),
    {
        let ghost s0 = *self;
        match t {
            UTarget::Location(_) => {
                proof {
                    lemma_indexed_refl(&s0);
                }
            },
            UTarget::Computed(e) => self.index_expr(e),
        }
    }

    /// Rewrite one variable read.
    fn rewrite_var(&self, v: &UVar) -> (r: UExpr)
        requires
            self.valid(),
        ensures
            r == rewrite_var_spec(self, *v),
    {
        let aligned = v.bits >= 8 && v.bits % 8 == 0 && v.offset <= u64::MAX - (v.bits / 8) as u64;
        if !aligned {
            return UExpr::Var(*v);
        }
        let pv = self.enclosing_of(v);
        proof {
            self.lemma_valid_ivs(v.space);
            lemma_enclosing_props(self.ivs_of(v.space), v.space, *v);
        }
        resize_expr(&pv, v, UExpr::Var(pv))
    }

    /// Rewrite an expression: replace every variable read by its
    /// enclosing variable's read, resized to the original bit range.
    pub fn rewrite_expr(&self, e: UExpr) -> (r: UExpr)
        requires
            self.valid(),
        ensures
            r == rewrite_expr_spec(self, e),
        decreases e,
    {
        match e {
            UExpr::Val(bv) => UExpr::Val(bv),
            UExpr::Var(v) => self.rewrite_var(&v),
            UExpr::Cast(x, c) => UExpr::Cast(Box::new(self.rewrite_expr(*x)), c),
            UExpr::UnOp(op, x) => UExpr::UnOp(op, Box::new(self.rewrite_expr(*x))),
            UExpr::UnRel(op, x) => UExpr::UnRel(op, Box::new(self.rewrite_expr(*x))),
            UExpr::BinOp(op, x, y) => UExpr::BinOp(
                op,
                Box::new(self.rewrite_expr(*x)),
                Box::new(self.rewrite_expr(*y)),
            ),
            UExpr::BinRel(op, x, y) => UExpr::BinRel(
                op,
                Box::new(self.rewrite_expr(*x)),
                Box::new(self.rewrite_expr(*y)),
            ),
            UExpr::Load(x, sz, sp) => UExpr::Load(Box::new(self.rewrite_expr(*x)), sz, sp),
            UExpr::Extract(x, l, m) => UExpr::Extract(Box::new(self.rewrite_expr(*x)), l, m),
            UExpr::Concat(x, y) => UExpr::Concat(
                Box::new(self.rewrite_expr(*x)),
                Box::new(self.rewrite_expr(*y)),
            ),
            UExpr::IfElse(c, x, y) => UExpr::IfElse(
                Box::new(self.rewrite_expr(*c)),
                Box::new(self.rewrite_expr(*x)),
                Box::new(self.rewrite_expr(*y)),
            ),
            UExpr::Call(t, args, b) => UExpr::Call(
                Box::new(self.rewrite_expr(*t)),
                self.rewrite_args(args),
                b,
            ),
            UExpr::Intrinsic(name, args, b) => UExpr::Intrinsic(name, self.rewrite_args(args), b),
        }
    }

    /// Rewrite an argument list.
    pub fn rewrite_args(&self, a: UArgs) -> (r: UArgs)
        requires
            self.valid(),
        ensures
            r == rewrite_args_spec(self, a),
        decreases a,
    {
        match a {
            UArgs::Nil => UArgs::Nil,
            UArgs::More(e, rest) => UArgs::More(
                Box::new(self.rewrite_expr(*e)),
                Box::new(self.rewrite_args(*rest)),
            ),
        }
    }

    /// Rewrite a branch target.
    pub fn rewrite_target(&self, t: UTarget) -> (r: UTarget)
        requires
            self.valid(),
        ensures
            r == rewrite_target_spec(self, t),
    {
        match t {
            UTarget::Location(loc) => UTarget::Location(loc),
            UTarget::Computed(e) => UTarget::Computed(self.rewrite_expr(e)),
        }
    }

    /// Rewrite a statement.
    pub fn rewrite_stmt(&self, s: UStmt) -> (r: UStmt)
        requires
            self.valid(),
        ensures
            r == rewrite_stmt_spec(self, s),
    {
        match s {
            UStmt::Assign(var, rhs) => {
                let rhs2 = self.rewrite_expr(rhs);
                let aligned = var.bits >= 8 && var.bits % 8 == 0 && var.offset <= u64::MAX - (
                var.bits / 8) as u64;
                if !aligned {
                    return UStmt::Assign(var, rhs2);
                }
                let pv = self.enclosing_of(&var);
                proof {
                    self.lemma_valid_ivs(var.space);
                    lemma_enclosing_props(self.ivs_of(var.space), var.space, var);
                }
                UStmt::Assign(pv, resize_expr(&var, &pv, rhs2))
            },
            UStmt::Store(d, x, sz, sp) => UStmt::Store(
                self.rewrite_expr(d),
                self.rewrite_expr(x),
                sz,
                sp,
            ),
            UStmt::Branch(t) => UStmt::Branch(self.rewrite_target(t)),
            UStmt::CBranch(c, t) => UStmt::CBranch(self.rewrite_expr(c), self.rewrite_target(t)),
            UStmt::Call(t, args) => UStmt::Call(self.rewrite_target(t), self.rewrite_args(args)),
            UStmt::Return(t) => UStmt::Return(self.rewrite_target(t)),
            UStmt::Intrinsic(name, args) => UStmt::Intrinsic(name, self.rewrite_args(args)),
            UStmt::Skip => UStmt::Skip,
        }
    }

    /// Apply the pass to one instruction's micro-op sequence: index
    /// every variable occurrence, then rewrite every statement against
    /// the finished index.
    pub fn apply(&mut self, ops: Vec<UStmt>) -> (r: Vec<UStmt>)
        requires
            old(self).valid(),
        ensures
            AliasPass::indexed(old(self), final(self), uvars_of_stmts(ops@)),
            final(self).valid(),
            final(self).reg_space() == old(self).reg_space(),
            final(self).reg_ivs() == old(self).reg_ivs(),
            r@.len() == ops@.len(),
            forall|i: int|
                0 <= i < ops@.len() ==> #[trigger] r@[i] == rewrite_stmt_spec(
                    final(self),
                    ops@[i],
                ),
    {
        let n = ops.len();
        let mut i: usize = 0;
        proof {
            assert(ops@.take(0) =~= Seq::<UStmt>::empty());
            lemma_indexed_refl(old(self));
        }
        while i < n
            invariant
                i <= n == ops@.len(),
                self.valid(),
                AliasPass::indexed(old(self), &*self, uvars_of_stmts(ops@.take(i as int))),
                self.reg_space() == old(self).reg_space(),
                self.reg_ivs() == old(self).reg_ivs(),
            decreases n - i,
        {
            let ghost s1 = *self;
            self.index_stmt(&ops[i]);
            proof {
                lemma_uvars_stmts_snoc(ops@, i as int);
                lemma_indexed_trans(
                    old(self),
                    &s1,
                    &*self,
                    uvars_of_stmts(ops@.take(i as int)),
                    uvars_of_stmt(&ops@[i as int]),
                );
            }
            i = i + 1;
        }
        proof {
            assert(ops@.take(n as int) =~= ops@);
        }
        let mut out: Vec<UStmt> = Vec::new();
        let mut ops = ops;
        let ghost opsv = ops@;
        let mut i: usize = 0;
        while i < n
            invariant
                i <= n == opsv.len(),
                ops@ =~= opsv.skip(i as int),
                self.valid(),
                self.reg_space() == old(self).reg_space(),
                self.reg_ivs() == old(self).reg_ivs(),
                out@.len() == i,
                forall|j: int|
                    0 <= j < i ==> #[trigger] out@[j] == rewrite_stmt_spec(self, opsv[j]),
            decreases n - i,
        {
            let s = ops.remove(0);
            proof {
                assert(s == opsv[i as int]);
                assert(ops@ =~= opsv.skip(i + 1));
            }
            let s2 = self.rewrite_stmt(s);
            out.push(s2);
            i = i + 1;
        }
        out
    }
}

/// Whether every variable read in an expression is its own enclosing
/// variable under the pass.
pub open spec fn expr_normalized(p: &AliasPass, e: UExpr) -> bool
    decreases e,
{
    match e {
        UExpr::Val(_) => true,
        UExpr::Var(v) => p.enclosing_v(v) == v,
        UExpr::Cast(x, _) => expr_normalized(p, *x),
        UExpr::UnOp(_, x) => expr_normalized(p, *x),
        UExpr::UnRel(_, x) => expr_normalized(p, *x),
        UExpr::BinOp(_, x, y) => expr_normalized(p, *x) && expr_normalized(p, *y),
        UExpr::BinRel(_, x, y) => expr_normalized(p, *x) && expr_normalized(p, *y),
        UExpr::Load(x, _, _) => expr_normalized(p, *x),
        UExpr::Extract(x, _, _) => expr_normalized(p, *x),
        UExpr::Concat(x, y) => expr_normalized(p, *x) && expr_normalized(p, *y),
        UExpr::IfElse(c, x, y) => expr_normalized(p, *c) && expr_normalized(p, *x)
            && expr_normalized(p, *y),
        UExpr::Call(t, args, _) => expr_normalized(p, *t) && args_normalized(p, args),
        UExpr::Intrinsic(_, args, _) => args_normalized(p, args),
    }
}

/// Whether every variable read in an argument list is its own enclosing
/// variable under the pass.
pub open spec fn args_normalized(p: &AliasPass, a: UArgs) -> bool
    decreases a,
{
    match a {
        UArgs::Nil => true,
        UArgs::More(e, rest) => expr_normalized(p, *e) && args_normalized(p, *rest),
    }
}

/// Whether a statement is normalised: every variable read, and an
/// assignment's target, is its own enclosing variable under the pass.
pub open spec fn stmt_normalized(p: &AliasPass, s: UStmt) -> bool {
    match s {
        UStmt::Assign(var, rhs) => p.enclosing_v(var) == var && expr_normalized(p, rhs),
        UStmt::Store(d, x, _, _) => expr_normalized(p, d) && expr_normalized(p, x),
        UStmt::Branch(t) => target_normalized(p, t),
        UStmt::CBranch(c, t) => expr_normalized(p, c) && target_normalized(p, t),
        UStmt::Call(t, args) => target_normalized(p, t) && args_normalized(p, args),
        UStmt::Return(t) => target_normalized(p, t),
        UStmt::Intrinsic(_, args) => args_normalized(p, args),
        UStmt::Skip => true,
    }
}

/// Whether a branch target is normalised.
pub open spec fn target_normalized(p: &AliasPass, t: UTarget) -> bool {
    match t {
        UTarget::Location(_) => true,
        UTarget::Computed(e) => expr_normalized(p, e),
    }
}

/// Rewriting a normalised expression changes nothing: every variable
/// read is already its own enclosing variable, so every resize
/// degenerates to the identity.
pub proof fn lemma_rewrite_normalized_expr(p: &AliasPass, e: UExpr)
    requires
        expr_normalized(p, e),
    ensures
        rewrite_expr_spec(p, e) == e,
    decreases e,
{
    match e {
        UExpr::Val(_) => {},
        UExpr::Var(v) => {
            assert(rewrite_var_spec(p, v) == resize_spec(v, v, UExpr::Var(v)));
        },
        UExpr::Cast(x, _) => lemma_rewrite_normalized_expr(p, *x),
        UExpr::UnOp(_, x) => lemma_rewrite_normalized_expr(p, *x),
        UExpr::UnRel(_, x) => lemma_rewrite_normalized_expr(p, *x),
        UExpr::BinOp(_, x, y) => {
            lemma_rewrite_normalized_expr(p, *x);
            lemma_rewrite_normalized_expr(p, *y);
        },
        UExpr::BinRel(_, x, y) => {
            lemma_rewrite_normalized_expr(p, *x);
            lemma_rewrite_normalized_expr(p, *y);
        },
        UExpr::Load(x, _, _) => lemma_rewrite_normalized_expr(p, *x),
        UExpr::Extract(x, _, _) => lemma_rewrite_normalized_expr(p, *x),
        UExpr::Concat(x, y) => {
            lemma_rewrite_normalized_expr(p, *x);
            lemma_rewrite_normalized_expr(p, *y);
        },
        UExpr::IfElse(c, x, y) => {
            lemma_rewrite_normalized_expr(p, *c);
            lemma_rewrite_normalized_expr(p, *x);
            lemma_rewrite_normalized_expr(p, *y);
        },
        UExpr::Call(t, args, _) => {
            lemma_rewrite_normalized_expr(p, *t);
            lemma_rewrite_normalized_args(p, args);
        },
        UExpr::Intrinsic(_, args, _) => lemma_rewrite_normalized_args(p, args),
    }
}

/// Rewriting a normalised argument list changes nothing.
pub proof fn lemma_rewrite_normalized_args(p: &AliasPass, a: UArgs)
    requires
        args_normalized(p, a),
    ensures
        rewrite_args_spec(p, a) == a,
    decreases a,
{
    match a {
        UArgs::Nil => {},
        UArgs::More(e, rest) => {
            lemma_rewrite_normalized_expr(p, *e);
            lemma_rewrite_normalized_args(p, *rest);
        },
    }
}

/// Rewriting a normalised statement changes nothing: applying the pass
/// a second time under the same indexes is the identity.
pub proof fn lemma_rewrite_normalized_stmt(p: &AliasPass, s: UStmt)
    requires
        stmt_normalized(p, s),
    ensures
        rewrite_stmt_spec(p, s) == s,
{
    match s {
        UStmt::Assign(var, rhs) => {
            lemma_rewrite_normalized_expr(p, rhs);
            assert(resize_spec(var, var, rewrite_expr_spec(p, rhs)) == rewrite_expr_spec(p, rhs));
        },
        UStmt::Store(d, x, _, _) => {
            lemma_rewrite_normalized_expr(p, d);
            lemma_rewrite_normalized_expr(p, x);
        },
        UStmt::Branch(t) => lemma_rewrite_normalized_target(p, t),
        UStmt::CBranch(c, t) => {
            lemma_rewrite_normalized_expr(p, c);
            lemma_rewrite_normalized_target(p, t);
        },
        UStmt::Call(t, args) => {
            lemma_rewrite_normalized_target(p, t);
            lemma_rewrite_normalized_args(p, args);
        },
        UStmt::Return(t) => lemma_rewrite_normalized_target(p, t),
        UStmt::Intrinsic(_, args) => lemma_rewrite_normalized_args(p, args),
        UStmt::Skip => {},
    }
}

/// Rewriting a normalised branch target changes nothing.
pub proof fn lemma_rewrite_normalized_target(p: &AliasPass, t: UTarget)
    requires
        target_normalized(p, t),
    ensures
        rewrite_target_spec(p, t) == t,
{
    match t {
        UTarget::Location(_) => {},
        UTarget::Computed(e) => lemma_rewrite_normalized_expr(p, e),
    }
}

/// Whether the second pass state sees at most what the first saw: the
/// same register index, and per-space interval lists drawn from the
/// first pass's. The index a pass rebuilds over its own output is of
/// this kind: every re-indexed interval is an enclosing result, and an
/// enclosing result is an indexed interval or the interval of a
/// variable the first index phase recorded.
pub open spec fn iv_known(p: &AliasPass, sp: u64, iv: (u64, u64)) -> bool {
    exists|k: int| 0 <= k < p.space_ivs(sp).len() && #[trigger] p.space_ivs(sp)[k] == iv
}

pub open spec fn subsumed(p1: &AliasPass, p2: &AliasPass) -> bool {
    &&& p2.reg_space() == p1.reg_space()
    &&& p2.reg_ivs() == p1.reg_ivs()
    &&& forall|sp: u64, j: int|
        0 <= j < p2.space_ivs(sp).len() ==> iv_known(p1, sp, #[trigger] p2.space_ivs(sp)[j])
}

/// An enclosing variable found under the first pass is its own
/// enclosing variable under any subsumed second pass: its interval is
/// covered by nothing the first pass indexed, so by nothing the second
/// holds either.
pub proof fn lemma_enclosing_stable(p1: &AliasPass, p2: &AliasPass, v: UVar)
    requires
        p1.valid(),
        p2.valid(),
        subsumed(p1, p2),
    ensures
        p2.enclosing_v(p1.enclosing_v(v)) == p1.enclosing_v(v),
{
    if !uvar_aligned(v) {
        assert(p1.enclosing_v(v) == v);
    } else {
        let s = v.space;
        p1.lemma_valid_ivs(s);
        lemma_enclosing_props(p1.ivs_of(s), s, v);
        let pv = p1.enclosing_v(v);
        let r = uvar_interval_spec(&pv);
        lemma_fold_enclose(p1.ivs_of(s), uvar_interval_spec(&v));
        assert(forall|j: int| 0 <= j < p1.ivs_of(s).len() ==> !covers(#[trigger] p1.ivs_of(s)[j], r));
        assert(pv.space == s);
        assert forall|j: int| 0 <= j < p2.ivs_of(s).len() implies !covers(
            #[trigger] p2.ivs_of(s)[j],
            r,
        ) by {
            if s == p1.reg_space() {
                assert(p2.ivs_of(s) == p1.ivs_of(s));
            } else {
                assert(p2.ivs_of(s) == p2.space_ivs(s));
                assert(iv_known(p1, s, p2.space_ivs(s)[j]));
                let k = choose|k: int|
                    0 <= k < p1.space_ivs(s).len() && p1.space_ivs(s)[k] == p2.space_ivs(s)[j];
                assert(!covers(p1.space_ivs(s)[k], r));
            }
        }
        lemma_fold_fixed(p2.ivs_of(s), r);
        assert(uvar_aligned(pv));
        assert(p2.enclosing_v(pv) == enclosing_spec(p2.ivs_of(s), s, &pv));
        assert(fold_enclose(p2.ivs_of(s), uvar_interval_spec(&pv)) == r);
        assert(8 * (r.1 - r.0) == pv.bits);
    }
}

/// Resizing a normalised expression around a variable that is its own
/// enclosing variable yields a normalised expression: the only variable
/// reads the resize adds are reads of that variable.
proof fn lemma_resize_normalized(p: &AliasPass, a: UVar, b: UVar, e: UExpr)
    requires
        expr_normalized(p, e),
        a.bits < b.bits ==> p.enclosing_v(b) == b,
    ensures
        expr_normalized(p, resize_spec(a, b, e)),
{
    let r = resize_spec(a, b, e);
    if a.bits > b.bits {
        if a.offset == b.offset {
            assert(r == UExpr::Cast(Box::new(e), UCast::Low(b.bits)));
            assert(expr_normalized(p, r));
        } else {
            let loff = 8 * (b.offset - a.offset);
            assert(r == UExpr::Extract(Box::new(e), loff as usize, (loff + b.bits) as usize));
            assert(expr_normalized(p, r));
        }
    } else if a.bits < b.bits {
        assert(expr_normalized(p, UExpr::Var(b)));
        let hi = UExpr::Cast(Box::new(UExpr::Var(b)), UCast::High((b.bits - a.bits) as u32));
        assert(expr_normalized(p, hi));
        if a.offset == b.offset {
            assert(r == UExpr::Concat(Box::new(hi), Box::new(e)));
            assert(expr_normalized(p, r));
        } else if a.offset + a.bits / 8 == b.offset + b.bits / 8 {
            let lo = UExpr::Cast(Box::new(UExpr::Var(b)), UCast::Low((b.bits - a.bits) as u32));
            assert(expr_normalized(p, lo));
            assert(r == UExpr::Concat(Box::new(e), Box::new(lo)));
            assert(expr_normalized(p, r));
        } else {
            let shift = 8 * (a.offset - b.offset);
            let hi2 = UExpr::Cast(
                Box::new(UExpr::Var(b)),
                UCast::High((b.bits - a.bits - shift) as u32),
            );
            let lo2 = UExpr::Cast(Box::new(UExpr::Var(b)), UCast::Low(shift as u32));
            assert(expr_normalized(p, hi2));
            assert(expr_normalized(p, lo2));
            let inner = UExpr::Concat(Box::new(e), Box::new(lo2));
            assert(expr_normalized(p, inner));
            assert(r == UExpr::Concat(Box::new(hi2), Box::new(inner)));
            assert(expr_normalized(p, r));
        }
    } else {
        assert(r == e);
    }
}

/// The first pass's rewrite is normalised under any subsumed second
/// pass: every variable it leaves behind is an enclosing result, which
/// stays its own enclosing variable.
pub proof fn lemma_rewrite_stays_normalized_expr(p1: &AliasPass, p2: &AliasPass, e: UExpr)
    requires
        p1.valid(),
        p2.valid(),
        subsumed(p1, p2),
    ensures
        expr_normalized(p2, rewrite_expr_spec(p1, e)),
    decreases e,
{
    match e {
        UExpr::Val(_) => {},
        UExpr::Var(v) => {
            lemma_enclosing_stable(p1, p2, v);
            let pv = p1.enclosing_v(v);
            if uvar_aligned(v) {
                p1.lemma_valid_ivs(v.space);
                lemma_enclosing_props(p1.ivs_of(v.space), v.space, v);
                assert(pv.bits >= v.bits);
            }
            lemma_resize_normalized(p2, pv, v, UExpr::Var(pv));
            assert(rewrite_var_spec(p1, v) == resize_spec(pv, v, UExpr::Var(pv)));
        },
        UExpr::Cast(x, _) => lemma_rewrite_stays_normalized_expr(p1, p2, *x),
        UExpr::UnOp(_, x) => lemma_rewrite_stays_normalized_expr(p1, p2, *x),
        UExpr::UnRel(_, x) => lemma_rewrite_stays_normalized_expr(p1, p2, *x),
        UExpr::BinOp(_, x, y) => {
            lemma_rewrite_stays_normalized_expr(p1, p2, *x);
            lemma_rewrite_stays_normalized_expr(p1, p2, *y);
        },
        UExpr::BinRel(_, x, y) => {
            lemma_rewrite_stays_normalized_expr(p1, p2, *x);
            lemma_rewrite_stays_normalized_expr(p1, p2, *y);
        },
        UExpr::Load(x, _, _) => lemma_rewrite_stays_normalized_expr(p1, p2, *x),
        UExpr::Extract(x, _, _) => lemma_rewrite_stays_normalized_expr(p1, p2, *x),
        UExpr::Concat(x, y) => {
            lemma_rewrite_stays_normalized_expr(p1, p2, *x);
            lemma_rewrite_stays_normalized_expr(p1, p2, *y);
        },
        UExpr::IfElse(c, x, y) => {
            lemma_rewrite_stays_normalized_expr(p1, p2, *c);
            lemma_rewrite_stays_normalized_expr(p1, p2, *x);
            lemma_rewrite_stays_normalized_expr(p1, p2, *y);
        },
        UExpr::Call(t, args, _) => {
            lemma_rewrite_stays_normalized_expr(p1, p2, *t);
            lemma_rewrite_stays_normalized_args(p1, p2, args);
        },
        UExpr::Intrinsic(_, args, _) => lemma_rewrite_stays_normalized_args(p1, p2, args),
    }
}

/// The argument-list form of the previous lemma.
pub proof fn lemma_rewrite_stays_normalized_args(p1: &AliasPass, p2: &AliasPass, a: UArgs)
    requires
        p1.valid(),
        p2.valid(),
        subsumed(p1, p2),
    ensures
        args_normalized(p2, rewrite_args_spec(p1, a)),
    decreases a,
{
    match a {
        UArgs::Nil => {},
        UArgs::More(e, rest) => {
            lemma_rewrite_stays_normalized_expr(p1, p2, *e);
            lemma_rewrite_stays_normalized_args(p1, p2, *rest);
        },
    }
}

/// The statement form of the previous lemma.
pub proof fn lemma_rewrite_stays_normalized_stmt(p1: &AliasPass, p2: &AliasPass, s: UStmt)
    requires
        p1.valid(),
        p2.valid(),
        subsumed(p1, p2),
    ensures
        stmt_normalized(p2, rewrite_stmt_spec(p1, s)),
{
    match s {
        UStmt::Assign(var, rhs) => {
            lemma_enclosing_stable(p1, p2, var);
            lemma_rewrite_stays_normalized_expr(p1, p2, rhs);
            let pv = p1.enclosing_v(var);
            lemma_resize_normalized(p2, var, pv, rewrite_expr_spec(p1, rhs));
        },
        UStmt::Store(d, x, _, _) => {
            lemma_rewrite_stays_normalized_expr(p1, p2, d);
            lemma_rewrite_stays_normalized_expr(p1, p2, x);
        },
        UStmt::Branch(t) => lemma_rewrite_stays_normalized_target(p1, p2, t),
        UStmt::CBranch(c, t) => {
            lemma_rewrite_stays_normalized_expr(p1, p2, c);
            lemma_rewrite_stays_normalized_target(p1, p2, t);
        },
        UStmt::Call(t, args) => {
            lemma_rewrite_stays_normalized_target(p1, p2, t);
            lemma_rewrite_stays_normalized_args(p1, p2, args);
        },
        UStmt::Return(t) => lemma_rewrite_stays_normalized_target(p1, p2, t),
        UStmt::Intrinsic(_, args) => lemma_rewrite_stays_normalized_args(p1, p2, args),
        UStmt::Skip => {},
    }
}

/// The branch-target form of the previous lemma.
pub proof fn lemma_rewrite_stays_normalized_target(p1: &AliasPass, p2: &AliasPass, t: UTarget)
    requires
        p1.valid(),
        p2.valid(),
        subsumed(p1, p2),
    ensures
        target_normalized(p2, rewrite_target_spec(p1, t)),
{
    match t {
        UTarget::Location(_) => {},
        UTarget::Computed(e) => lemma_rewrite_stays_normalized_expr(p1, p2, e),
    }
}

/// Alias-pass idempotence: rewriting an already-normalised micro-op
/// sequence a second time is the identity. The second pass's rebuilt
/// per-space indexes hold only enclosing results of the first, so they
/// are subsumed by the first pass's indexes; under any such state the
/// first rewrite is a fixed point.
pub proof fn lemma_alias_pass_idempotent(p1: &AliasPass, p2: &AliasPass, s: UStmt)
    requires
        p1.valid(),
        p2.valid(),
        subsumed(p1, p2),
    ensures
        rewrite_stmt_spec(p2, rewrite_stmt_spec(p1, s)) == rewrite_stmt_spec(p1, s),
{
    lemma_rewrite_stays_normalized_stmt(p1, p2, s);
    lemma_rewrite_normalized_stmt(p2, rewrite_stmt_spec(p1, s));
}

/// The bytes a variable occupies under a byte-state of its space.
pub open spec fn var_bytes(m: Map<int, u8>, offset: int, count: int) -> Seq<u8> {
    Seq::new(count as nat, |i: int| m[offset + i])
}

/// The value a variable read denotes under a byte-state: its bytes,
/// least significant first.
pub open spec fn var_read(m: Map<int, u8>, v: UVar) -> int {
    crate::region::le_val(var_bytes(m, v.offset as int, v.bits as int / 8))
}

/// A byte string's value splits at any position: the low `k` bytes
/// carry the low bits, the rest sit above them.
proof fn lemma_le_val_split(b: Seq<u8>, k: int)
    requires
        0 <= k <= b.len(),
    ensures
        crate::region::le_val(b) == crate::region::le_val(b.take(k)) + pow2((8 * k) as nat)
            * crate::region::le_val(b.skip(k)),
    decreases k,
{
    lemma2_to64();
    if k == 0 {
        assert(b.take(0) =~= Seq::<u8>::empty());
        assert(b.skip(0) =~= b);
        assert(pow2(0) * crate::region::le_val(b) == crate::region::le_val(b)) by (nonlinear_arith)
            requires
                pow2(0) == 1,
        {}
    } else {
        lemma_le_val_split(b.skip(1), k - 1);
        assert(b.take(k)[0] == b[0]);
        assert(b.take(k).skip(1) =~= b.skip(1).take(k - 1));
        assert(b.skip(k) =~= b.skip(1).skip(k - 1));
        lemma_pow2_adds(8, (8 * (k - 1)) as nat);
        let lo = crate::region::le_val(b.skip(1).take(k - 1));
        let hi = crate::region::le_val(b.skip(1).skip(k - 1));
        assert(crate::region::le_val(b) == b[0] + 256 * crate::region::le_val(b.skip(1)));
        assert(crate::region::le_val(b.take(k)) == b[0] + 256 * lo);
        assert(256 * (lo + pow2((8 * (k - 1)) as nat) * hi) == 256 * lo + (256 * pow2(
            (8 * (k - 1)) as nat,
        )) * hi) by (nonlinear_arith);
        assert(256 * pow2((8 * (k - 1)) as nat) == pow2((8 * k) as nat));
        assert(hi == crate::region::le_val(b.skip(k)));
        assert(crate::region::le_val(b.skip(1)) == lo + pow2((8 * (k - 1)) as nat) * hi);
        assert(crate::region::le_val(b) == b[0] + 256 * (lo + pow2((8 * (k - 1)) as nat) * hi));
        assert(crate::region::le_val(b) == b[0] + 256 * lo + pow2((8 * k) as nat) * hi) by (nonlinear_arith)
            requires
                crate::region::le_val(b) == b[0] + 256 * (lo + pow2((8 * (k - 1)) as nat) * hi),
                256 * pow2((8 * (k - 1)) as nat) == pow2((8 * k) as nat),
        {}
    }
}

/// Semantic preservation of the read rewrite, for every byte-state of
/// the variables' space: the value of a sub-register view equals the
/// addressed slice of its enclosing register's value. The slice is the
/// one `resize_spec` extracts when the pass rewrites the read: the low
/// bits at a shared start, or the range above `8 * (offset difference)`
/// bits otherwise.
pub proof fn lemma_read_rewrite_preserves(m: Map<int, u8>, v: UVar, pv: UVar)
    requires
        uvar_aligned(v),
        uvar_aligned(pv),
        contains_iv(uvar_interval_spec(&pv), uvar_interval_spec(&v)),
    ensures
        var_read(m, v) == (var_read(m, pv) / pow2((8 * (v.offset - pv.offset)) as nat) as int)
            % pow2(v.bits as nat) as int,
        pv.offset == v.offset ==> var_read(m, v) == var_read(m, pv) % pow2(v.bits as nat) as int,
{
    let j = v.offset - pv.offset;
    let nv = v.bits as int / 8;
    let np = pv.bits as int / 8;
    let pb = var_bytes(m, pv.offset as int, np);
    let vb = var_bytes(m, v.offset as int, nv);
    assert(8 * nv == v.bits);
    assert(8 * np == pv.bits);
    assert(j + nv <= np);
    lemma_pow2_pos((8 * j) as nat);
    lemma_pow2_pos(v.bits as nat);
    // the enclosing register's value splits at the slice's start
    lemma_le_val_split(pb, j);
    let low = crate::region::le_val(pb.take(j));
    let rest = crate::region::le_val(pb.skip(j));
    crate::region::lemma_le_val_bound(pb.take(j));
    assert(pb.take(j).len() == j);
    // dividing away the low bytes leaves the slice and what lies above
    assert(var_read(m, pv) / pow2((8 * j) as nat) as int == rest) by {
        let p = pow2((8 * j) as nat) as int;
        assert(var_read(m, pv) == low + p * rest);
        lemma_div_multiples_vanish_fancy(rest, low, p);
    }
    // the slice's bytes are the sub-register's bytes
    lemma_le_val_split(pb.skip(j), nv);
    assert(pb.skip(j).take(nv) =~= vb);
    let above = crate::region::le_val(pb.skip(j).skip(nv));
    crate::region::lemma_le_val_bound(vb);
    assert(rest % pow2(v.bits as nat) as int == crate::region::le_val(vb)) by {
        let q = pow2(v.bits as nat) as int;
        assert(rest == crate::region::le_val(vb) + q * above);
        assert(crate::region::le_val(vb) + q * above == q * above + crate::region::le_val(vb))
            by (nonlinear_arith);
        lemma_mod_multiples_vanish(above, crate::region::le_val(vb), q);
        lemma_small_mod(crate::region::le_val(vb) as nat, q as nat);
    }
    if pv.offset == v.offset {
        assert(pb.skip(0) =~= pb);
        lemma2_to64();
    }
}

/// Whether a variable occurs in a sequence.
pub open spec fn in_seq(v: UVar, vs: Seq<UVar>) -> bool {
    exists|k: int| 0 <= k < vs.len() && vs[k] == v
}

/// Occurrence distributes over concatenation.
proof fn lemma_in_seq_concat(v: UVar, a: Seq<UVar>, b: Seq<UVar>)
    ensures
        in_seq(v, a + b) <==> (in_seq(v, a) || in_seq(v, b)),
{
    if in_seq(v, a) {
        let k = choose|k: int| 0 <= k < a.len() && a[k] == v;
        assert((a + b)[k] == v);
    }
    if in_seq(v, b) {
        let k = choose|k: int| 0 <= k < b.len() && b[k] == v;
        assert((a + b)[a.len() + k] == v);
    }
    if in_seq(v, a + b) {
        let k = choose|k: int| 0 <= k < (a + b).len() && (a + b)[k] == v;
        if k < a.len() {
            assert(a[k] == v);
        } else {
            assert(b[k - a.len()] == v);
        }
    }
}

/// Every recorded interval comes from a qualifying occurrence.
proof fn lemma_inserted_elements(sp: u64, reg: u64, vs: Seq<UVar>, j: int)
    requires
        0 <= j < inserted_for(sp, reg, vs).len(),
    ensures
        exists|w: UVar|
            in_seq(w, vs) && uvar_aligned(w) && w.space == sp && sp != reg && inserted_for(
                sp,
                reg,
                vs,
            )[j] == uvar_interval_spec(&w),
    decreases vs.len(),
{
    let head_hit = uvar_aligned(vs[0]) && vs[0].space == sp && sp != reg;
    if head_hit && j == 0 {
        let w = vs[0];
        assert(vs[0] == w);
        assert(in_seq(w, vs));
        assert(inserted_for(sp, reg, vs)[0] == uvar_interval_spec(&w));
    } else {
        let j1 = if head_hit {
            j - 1
        } else {
            j
        };
        lemma_inserted_elements(sp, reg, vs.skip(1), j1);
        let w = choose|w: UVar|
            in_seq(w, vs.skip(1)) && uvar_aligned(w) && w.space == sp && sp != reg
                && inserted_for(sp, reg, vs.skip(1))[j1] == uvar_interval_spec(&w);
        let k = choose|k: int| 0 <= k < vs.skip(1).len() && vs.skip(1)[k] == w;
        assert(vs[k + 1] == w);
        assert(in_seq(w, vs));
        assert(inserted_for(sp, reg, vs)[j] == inserted_for(sp, reg, vs.skip(1))[j1]);
    }
}

/// Every qualifying occurrence has its interval recorded.
proof fn lemma_inserted_membership(sp: u64, reg: u64, vs: Seq<UVar>, k: int)
    requires
        0 <= k < vs.len(),
        uvar_aligned(vs[k]),
        vs[k].space == sp,
        sp != reg,
    ensures
        exists|j: int|
            0 <= j < inserted_for(sp, reg, vs).len() && inserted_for(sp, reg, vs)[j]
                == uvar_interval_spec(&vs[k]),
    decreases vs.len(),
{
    let head_hit = uvar_aligned(vs[0]) && vs[0].space == sp && sp != reg;
    if k == 0 {
        assert(inserted_for(sp, reg, vs)[0] == uvar_interval_spec(&vs[0]));
    } else {
        assert(vs.skip(1)[k - 1] == vs[k]);
        lemma_inserted_membership(sp, reg, vs.skip(1), k - 1);
        let j1 = choose|j: int|
            0 <= j < inserted_for(sp, reg, vs.skip(1)).len() && inserted_for(sp, reg, vs.skip(1))[j]
                == uvar_interval_spec(&vs.skip(1)[k - 1]);
        let off: int = if head_hit {
            1
        } else {
            0
        };
        assert(inserted_for(sp, reg, vs)[j1 + off] == inserted_for(sp, reg, vs.skip(1))[j1]);
    }
}

/// The variables a resize leaves behind: the enclosing variable it
/// reads, and whatever the embedded expression read.
proof fn lemma_resize_vars(a: UVar, b: UVar, e: UExpr)
    ensures
        forall|j: int|
            0 <= j < uvars_of_expr(&resize_spec(a, b, e)).len() ==> {
                let u = #[trigger] uvars_of_expr(&resize_spec(a, b, e))[j];
                u == b || in_seq(u, uvars_of_expr(&e))
            },
{
    let r = resize_spec(a, b, e);
    let bread = UExpr::Var(b);
    assert(uvars_of_expr(&bread) =~= seq![b]);
    if a.bits > b.bits {
        if a.offset == b.offset {
            assert(r == UExpr::Cast(Box::new(e), UCast::Low(b.bits)));
        } else {
            let loff = 8 * (b.offset - a.offset);
            assert(r == UExpr::Extract(Box::new(e), loff as usize, (loff + b.bits) as usize));
        }
        assert(uvars_of_expr(&r) =~= uvars_of_expr(&e));
    } else if a.bits < b.bits {
        let hi = UExpr::Cast(Box::new(UExpr::Var(b)), UCast::High((b.bits - a.bits) as u32));
        let lo = UExpr::Cast(Box::new(UExpr::Var(b)), UCast::Low((b.bits - a.bits) as u32));
        assert(uvars_of_expr(&hi) =~= seq![b]);
        assert(uvars_of_expr(&lo) =~= seq![b]);
        if a.offset == b.offset {
            assert(r == UExpr::Concat(Box::new(hi), Box::new(e)));
            assert(uvars_of_expr(&r) =~= seq![b] + uvars_of_expr(&e));
        } else if a.offset + a.bits / 8 == b.offset + b.bits / 8 {
            assert(r == UExpr::Concat(Box::new(e), Box::new(lo)));
            assert(uvars_of_expr(&r) =~= uvars_of_expr(&e) + seq![b]);
        } else {
            let shift = 8 * (a.offset - b.offset);
            let hi2 = UExpr::Cast(
                Box::new(UExpr::Var(b)),
                UCast::High((b.bits - a.bits - shift) as u32),
            );
            let lo2 = UExpr::Cast(Box::new(UExpr::Var(b)), UCast::Low(shift as u32));
            assert(uvars_of_expr(&hi2) =~= seq![b]);
            assert(uvars_of_expr(&lo2) =~= seq![b]);
            let inner = UExpr::Concat(Box::new(e), Box::new(lo2));
            assert(uvars_of_expr(&inner) =~= uvars_of_expr(&e) + seq![b]);
            assert(r == UExpr::Concat(Box::new(hi2), Box::new(inner)));
            assert(uvars_of_expr(&r) =~= seq![b] + (uvars_of_expr(&e) + seq![b]));
        }
    } else {
        assert(r == e);
    }
    assert forall|j: int| 0 <= j < uvars_of_expr(&r).len() implies {
        let u = #[trigger] uvars_of_expr(&r)[j];
        u == b || in_seq(u, uvars_of_expr(&e))
    } by {
        let u = uvars_of_expr(&r)[j];
        if a.bits > b.bits {
            assert(in_seq(u, uvars_of_expr(&e)));
        } else if a.bits < b.bits {
            if a.offset == b.offset {
                lemma_in_seq_concat(u, seq![b], uvars_of_expr(&e));
                assert(in_seq(u, seq![b] + uvars_of_expr(&e)));
                if in_seq(u, seq![b]) {
                    assert(u == b);
                }
            } else if a.offset + a.bits / 8 == b.offset + b.bits / 8 {
                lemma_in_seq_concat(u, uvars_of_expr(&e), seq![b]);
                assert(in_seq(u, uvars_of_expr(&e) + seq![b]));
                if in_seq(u, seq![b]) {
                    assert(u == b);
                }
            } else {
                lemma_in_seq_concat(u, seq![b], uvars_of_expr(&e) + seq![b]);
                assert(in_seq(u, seq![b] + (uvars_of_expr(&e) + seq![b])));
                if !in_seq(u, seq![b]) {
                    lemma_in_seq_concat(u, uvars_of_expr(&e), seq![b]);
                    if in_seq(u, seq![b]) {
                        assert(u == b);
                    }
                }
            }
        } else {
            assert(in_seq(u, uvars_of_expr(&e)));
        }
    }
}

/// Whether `u` is the enclosing variable of some occurrence in `src`.
pub open spec fn from_enclosing(p: &AliasPass, src: Seq<UVar>, u: UVar) -> bool {
    exists|k: int| 0 <= k < src.len() && u == p.enclosing_v(#[trigger] src[k])
}

/// Whether every occurrence in `rvs` is the enclosing variable of some
/// occurrence in `src`.
pub open spec fn rewritten_from(p: &AliasPass, rvs: Seq<UVar>, src: Seq<UVar>) -> bool {
    forall|j: int| 0 <= j < rvs.len() ==> from_enclosing(p, src, #[trigger] rvs[j])
}

/// An enclosing origin survives widening the source to the left or
/// right.
proof fn lemma_from_enclosing_widen(p: &AliasPass, a: Seq<UVar>, b: Seq<UVar>, u: UVar)
    ensures
        from_enclosing(p, a, u) ==> from_enclosing(p, a + b, u),
        from_enclosing(p, b, u) ==> from_enclosing(p, a + b, u),
{
    if from_enclosing(p, a, u) {
        let k = choose|k: int| 0 <= k < a.len() && u == p.enclosing_v(a[k]);
        assert((a + b)[k] == a[k]);
        assert(u == p.enclosing_v((a + b)[k]));
    }
    if from_enclosing(p, b, u) {
        let k = choose|k: int| 0 <= k < b.len() && u == p.enclosing_v(b[k]);
        assert((a + b)[a.len() + k] == b[k]);
        assert(u == p.enclosing_v((a + b)[a.len() + k]));
    }
}

/// Concatenation keeps the enclosing-origin property of rewritten
/// occurrence lists.
proof fn lemma_rewritten_concat(
    p: &AliasPass,
    ra: Seq<UVar>,
    rb: Seq<UVar>,
    a: Seq<UVar>,
    b: Seq<UVar>,
)
    requires
        rewritten_from(p, ra, a),
        rewritten_from(p, rb, b),
    ensures
        rewritten_from(p, ra + rb, a + b),
{
    assert forall|j: int| 0 <= j < (ra + rb).len() implies from_enclosing(
        p,
        a + b,
        #[trigger] (ra + rb)[j],
    ) by {
        if j < ra.len() {
            assert((ra + rb)[j] == ra[j]);
            assert(from_enclosing(p, a, ra[j]));
            lemma_from_enclosing_widen(p, a, b, ra[j]);
        } else {
            assert((ra + rb)[j] == rb[j - ra.len()]);
            assert(from_enclosing(p, b, rb[j - ra.len()]));
            lemma_from_enclosing_widen(p, a, b, rb[j - ra.len()]);
        }
    }
}

/// What the pass's rewrite leaves behind: every variable occurrence of
/// the output is the enclosing variable of some occurrence of the
/// input.
pub proof fn lemma_rewrite_vars_expr(p: &AliasPass, e: UExpr)
    requires
        p.valid(),
    ensures
        rewritten_from(p, uvars_of_expr(&rewrite_expr_spec(p, e)), uvars_of_expr(&e)),
    decreases e,
{
    let r = rewrite_expr_spec(p, e);
    match e {
        UExpr::Val(_) => {},
        UExpr::Var(v) => {
            let pv = p.enclosing_v(v);
            assert(r == resize_spec(pv, v, UExpr::Var(pv)));
            if uvar_aligned(v) {
                p.lemma_valid_ivs(v.space);
                lemma_enclosing_props(p.ivs_of(v.space), v.space, v);
                assert(pv.bits >= v.bits);
            } else {
                assert(pv == v);
            }
            // the enclosing variable is never narrower, so the resize
            // only wraps a read of it
            if pv.bits > v.bits {
                if pv.offset == v.offset {
                    assert(r == UExpr::Cast(Box::new(UExpr::Var(pv)), UCast::Low(v.bits)));
                } else {
                    let loff = 8 * (v.offset - pv.offset);
                    assert(r == UExpr::Extract(
                        Box::new(UExpr::Var(pv)),
                        loff as usize,
                        (loff + v.bits) as usize,
                    ));
                }
            } else {
                assert(r == UExpr::Var(pv));
            }
            assert(uvars_of_expr(&UExpr::Var(pv)) =~= seq![pv]);
            assert(uvars_of_expr(&r) =~= seq![pv]);
            assert(uvars_of_expr(&e)[0] == v);
            assert(pv == p.enclosing_v(uvars_of_expr(&e)[0]));
            assert(from_enclosing(p, uvars_of_expr(&e), pv));
            assert forall|j: int| 0 <= j < uvars_of_expr(&r).len() implies from_enclosing(
                p,
                uvars_of_expr(&e),
                #[trigger] uvars_of_expr(&r)[j],
            ) by {
                assert(uvars_of_expr(&r)[j] == pv);
            }
        },
        UExpr::Cast(x, _) => {
            lemma_rewrite_vars_expr(p, *x);
            assert(uvars_of_expr(&r) =~= uvars_of_expr(&rewrite_expr_spec(p, *x)));
            assert(uvars_of_expr(&e) =~= uvars_of_expr(&*x));
        },
        UExpr::UnOp(_, x) => {
            lemma_rewrite_vars_expr(p, *x);
            assert(uvars_of_expr(&r) =~= uvars_of_expr(&rewrite_expr_spec(p, *x)));
            assert(uvars_of_expr(&e) =~= uvars_of_expr(&*x));
        },
        UExpr::UnRel(_, x) => {
            lemma_rewrite_vars_expr(p, *x);
            assert(uvars_of_expr(&r) =~= uvars_of_expr(&rewrite_expr_spec(p, *x)));
            assert(uvars_of_expr(&e) =~= uvars_of_expr(&*x));
        },
        UExpr::BinOp(_, x, y) => {
            lemma_rewrite_vars_expr(p, *x);
            lemma_rewrite_vars_expr(p, *y);
            lemma_rewritten_concat(
                p,
                uvars_of_expr(&rewrite_expr_spec(p, *x)),
                uvars_of_expr(&rewrite_expr_spec(p, *y)),
                uvars_of_expr(&*x),
                uvars_of_expr(&*y),
            );
        },
        UExpr::BinRel(_, x, y) => {
            lemma_rewrite_vars_expr(p, *x);
            lemma_rewrite_vars_expr(p, *y);
            lemma_rewritten_concat(
                p,
                uvars_of_expr(&rewrite_expr_spec(p, *x)),
                uvars_of_expr(&rewrite_expr_spec(p, *y)),
                uvars_of_expr(&*x),
                uvars_of_expr(&*y),
            );
        },
        UExpr::Load(x, _, _) => {
            lemma_rewrite_vars_expr(p, *x);
            assert(uvars_of_expr(&r) =~= uvars_of_expr(&rewrite_expr_spec(p, *x)));
            assert(uvars_of_expr(&e) =~= uvars_of_expr(&*x));
        },
        UExpr::Extract(x, _, _) => {
            lemma_rewrite_vars_expr(p, *x);
            assert(uvars_of_expr(&r) =~= uvars_of_expr(&rewrite_expr_spec(p, *x)));
            assert(uvars_of_expr(&e) =~= uvars_of_expr(&*x));
        },
        UExpr::Concat(x, y) => {
            lemma_rewrite_vars_expr(p, *x);
            lemma_rewrite_vars_expr(p, *y);
            lemma_rewritten_concat(
                p,
                uvars_of_expr(&rewrite_expr_spec(p, *x)),
                uvars_of_expr(&rewrite_expr_spec(p, *y)),
                uvars_of_expr(&*x),
                uvars_of_expr(&*y),
            );
        },
        UExpr::IfElse(c, x, y) => {
            lemma_rewrite_vars_expr(p, *c);
            lemma_rewrite_vars_expr(p, *x);
            lemma_rewrite_vars_expr(p, *y);
            lemma_rewritten_concat(
                p,
                uvars_of_expr(&rewrite_expr_spec(p, *c)),
                uvars_of_expr(&rewrite_expr_spec(p, *x)),
                uvars_of_expr(&*c),
                uvars_of_expr(&*x),
            );
            lemma_rewritten_concat(
                p,
                uvars_of_expr(&rewrite_expr_spec(p, *c)) + uvars_of_expr(
                    &rewrite_expr_spec(p, *x),
                ),
                uvars_of_expr(&rewrite_expr_spec(p, *y)),
                uvars_of_expr(&*c) + uvars_of_expr(&*x),
                uvars_of_expr(&*y),
            );
        },
        UExpr::Call(t, args, _) => {
            lemma_rewrite_vars_expr(p, *t);
            lemma_rewrite_vars_args(p, args);
            lemma_rewritten_concat(
                p,
                uvars_of_expr(&rewrite_expr_spec(p, *t)),
                uvars_of_args(&rewrite_args_spec(p, args)),
                uvars_of_expr(&*t),
                uvars_of_args(&args),
            );
        },
        UExpr::Intrinsic(_, args, _) => {
            lemma_rewrite_vars_args(p, args);
            assert(uvars_of_expr(&r) =~= uvars_of_args(&rewrite_args_spec(p, args)));
            assert(uvars_of_expr(&e) =~= uvars_of_args(&args));
        },
    }
}

/// The argument-list form of the previous lemma.
pub proof fn lemma_rewrite_vars_args(p: &AliasPass, a: UArgs)
    requires
        p.valid(),
    ensures
        rewritten_from(p, uvars_of_args(&rewrite_args_spec(p, a)), uvars_of_args(&a)),
    decreases a,
{
    match a {
        UArgs::Nil => {},
        UArgs::More(e, rest) => {
            lemma_rewrite_vars_expr(p, *e);
            lemma_rewrite_vars_args(p, *rest);
            lemma_rewritten_concat(
                p,
                uvars_of_expr(&rewrite_expr_spec(p, *e)),
                uvars_of_args(&rewrite_args_spec(p, *rest)),
                uvars_of_expr(&*e),
                uvars_of_args(&*rest),
            );
            assert(uvars_of_args(&rewrite_args_spec(p, a)) =~= uvars_of_expr(
                &rewrite_expr_spec(p, *e),
            ) + uvars_of_args(&rewrite_args_spec(p, *rest)));
            assert(uvars_of_args(&a) =~= uvars_of_expr(&*e) + uvars_of_args(&*rest));
        },
    }
}

/// The statement form of the occurrence-origin lemma.
pub proof fn lemma_rewrite_vars_stmt(p: &AliasPass, s: UStmt)
    requires
        p.valid(),
    ensures
        rewritten_from(p, uvars_of_stmt(&rewrite_stmt_spec(p, s)), uvars_of_stmt(&s)),
{
    let r = rewrite_stmt_spec(p, s);
    match s {
        UStmt::Assign(var, rhs) => {
            let pv = p.enclosing_v(var);
            let rhs2 = rewrite_expr_spec(p, rhs);
            lemma_rewrite_vars_expr(p, rhs);
            lemma_resize_vars(var, pv, rhs2);
            let src = uvars_of_stmt(&s);
            assert(src =~= seq![var] + uvars_of_expr(&rhs));
            assert(src[0] == var);
            assert(from_enclosing(p, src, pv));
            assert(uvars_of_stmt(&r) =~= seq![pv] + uvars_of_expr(
                &resize_spec(var, pv, rhs2),
            ));
            assert forall|j: int| 0 <= j < uvars_of_stmt(&r).len() implies from_enclosing(
                p,
                src,
                #[trigger] uvars_of_stmt(&r)[j],
            ) by {
                let u = uvars_of_stmt(&r)[j];
                if j == 0 {
                    assert(u == pv);
                } else {
                    let ru = uvars_of_expr(&resize_spec(var, pv, rhs2))[j - 1];
                    assert(u == ru);
                    assert(ru == pv || in_seq(ru, uvars_of_expr(&rhs2)));
                    if ru != pv {
                        let k = choose|k: int|
                            0 <= k < uvars_of_expr(&rhs2).len() && uvars_of_expr(&rhs2)[k] == ru;
                        assert(from_enclosing(p, uvars_of_expr(&rhs), ru));
                        lemma_from_enclosing_widen(p, seq![var], uvars_of_expr(&rhs), ru);
                    }
                }
            }
        },
        UStmt::Store(d, x, _, _) => {
            lemma_rewrite_vars_expr(p, d);
            lemma_rewrite_vars_expr(p, x);
            lemma_rewritten_concat(
                p,
                uvars_of_expr(&rewrite_expr_spec(p, d)),
                uvars_of_expr(&rewrite_expr_spec(p, x)),
                uvars_of_expr(&d),
                uvars_of_expr(&x),
            );
        },
        UStmt::Branch(t) => lemma_rewrite_vars_target(p, t),
        UStmt::CBranch(c, t) => {
            lemma_rewrite_vars_expr(p, c);
            lemma_rewrite_vars_target(p, t);
            lemma_rewritten_concat(
                p,
                uvars_of_expr(&rewrite_expr_spec(p, c)),
                uvars_of_target(&rewrite_target_spec(p, t)),
                uvars_of_expr(&c),
                uvars_of_target(&t),
            );
        },
        UStmt::Call(t, args) => {
            lemma_rewrite_vars_target(p, t);
            lemma_rewrite_vars_args(p, args);
            lemma_rewritten_concat(
                p,
                uvars_of_target(&rewrite_target_spec(p, t)),
                uvars_of_args(&rewrite_args_spec(p, args)),
                uvars_of_target(&t),
                uvars_of_args(&args),
            );
        },
        UStmt::Return(t) => lemma_rewrite_vars_target(p, t),
        UStmt::Intrinsic(_, args) => lemma_rewrite_vars_args(p, args),
        UStmt::Skip => {},
    }
}

/// The branch-target form of the occurrence-origin lemma.
pub proof fn lemma_rewrite_vars_target(p: &AliasPass, t: UTarget)
    requires
        p.valid(),
    ensures
        rewritten_from(p, uvars_of_target(&rewrite_target_spec(p, t)), uvars_of_target(&t)),
{
    match t {
        UTarget::Location(_) => {},
        UTarget::Computed(e) => lemma_rewrite_vars_expr(p, e),
    }
}

/// An occurrence of one statement occurs in the whole sequence.
proof fn lemma_stmts_member_fwd(ss: Seq<UStmt>, i: int, v: UVar)
    requires
        0 <= i < ss.len(),
        in_seq(v, uvars_of_stmt(&ss[i])),
    ensures
        in_seq(v, uvars_of_stmts(ss)),
    decreases ss.len(),
{
    if i == 0 {
        let k = choose|k: int|
            0 <= k < uvars_of_stmt(&ss[0]).len() && uvars_of_stmt(&ss[0])[k] == v;
        assert(uvars_of_stmts(ss)[k] == v);
    } else {
        assert(ss.skip(1)[i - 1] == ss[i]);
        lemma_stmts_member_fwd(ss.skip(1), i - 1, v);
        let k = choose|k: int|
            0 <= k < uvars_of_stmts(ss.skip(1)).len() && uvars_of_stmts(ss.skip(1))[k] == v;
        assert(uvars_of_stmts(ss)[uvars_of_stmt(&ss[0]).len() + k] == v);
    }
}

/// An occurrence of the sequence occurs in one of its statements.
proof fn lemma_stmts_member_bwd(ss: Seq<UStmt>, v: UVar)
    requires
        in_seq(v, uvars_of_stmts(ss)),
    ensures
        exists|i: int| 0 <= i < ss.len() && in_seq(v, uvars_of_stmt(&(#[trigger] ss[i]))),
    decreases ss.len(),
{
    let k = choose|k: int|
        0 <= k < uvars_of_stmts(ss).len() && uvars_of_stmts(ss)[k] == v;
    let la = uvars_of_stmt(&ss[0]).len() as int;
    if k < la {
        assert(uvars_of_stmt(&ss[0])[k] == v);
        assert(in_seq(v, uvars_of_stmt(&ss[0])));
    } else {
        assert(uvars_of_stmts(ss)[k] == uvars_of_stmts(ss.skip(1))[k - la]);
        assert(in_seq(v, uvars_of_stmts(ss.skip(1))));
        lemma_stmts_member_bwd(ss.skip(1), v);
        let i = choose|i: int|
            0 <= i < ss.skip(1).len() && in_seq(v, uvars_of_stmt(&ss.skip(1)[i]));
        assert(ss.skip(1)[i] == ss[i + 1]);
        assert(in_seq(v, uvars_of_stmt(&ss[i + 1])));
    }
}

/// Alias-pass idempotence, end to end: a first pass starts with empty
/// per-space indexes, records the occurrences of a micro-op sequence,
/// and rewrites it; a second pass starts afresh over the same register
/// index and records the occurrences of the rewritten sequence. The
/// second rewrite then changes nothing: every interval the second pass
/// indexed belongs to an enclosing result of the first, whose interval
/// the first pass already knew, so every rewritten variable is its own
/// enclosing variable under the second pass.
pub proof fn lemma_apply_idempotent(
    p0: &AliasPass,
    p1: &AliasPass,
    q0: &AliasPass,
    q1: &AliasPass,
    ops: Seq<UStmt>,
    out: Seq<UStmt>,
)
    requires
        p0.valid(),
        forall|sp: u64| #[trigger] p0.space_ivs(sp) =~= Seq::<(u64, u64)>::empty(),
        AliasPass::indexed(p0, p1, uvars_of_stmts(ops)),
        q0.valid(),
        forall|sp: u64| #[trigger] q0.space_ivs(sp) =~= Seq::<(u64, u64)>::empty(),
        q0.reg_space() == p0.reg_space(),
        q0.reg_ivs() == p0.reg_ivs(),
        AliasPass::indexed(q0, q1, uvars_of_stmts(out)),
        out.len() == ops.len(),
        forall|i: int| 0 <= i < ops.len() ==> #[trigger] out[i] == rewrite_stmt_spec(p1, ops[i]),
    ensures
        forall|i: int|
            0 <= i < out.len() ==> #[trigger] rewrite_stmt_spec(q1, out[i]) == out[i],
{
    lemma_rebuilt_subsumed(p0, p1, q0, q1, ops, out);
    assert forall|i: int| 0 <= i < out.len() implies #[trigger] rewrite_stmt_spec(q1, out[i])
        == out[i] by {
        lemma_alias_pass_idempotent(p1, q1, ops[i]);
    }
}

/// The index a second pass rebuilds over the first pass's output is
/// subsumed by the first pass's index.
proof fn lemma_rebuilt_subsumed(
    p0: &AliasPass,
    p1: &AliasPass,
    q0: &AliasPass,
    q1: &AliasPass,
    ops: Seq<UStmt>,
    out: Seq<UStmt>,
)
    requires
        p0.valid(),
        forall|sp: u64| #[trigger] p0.space_ivs(sp) =~= Seq::<(u64, u64)>::empty(),
        AliasPass::indexed(p0, p1, uvars_of_stmts(ops)),
        q0.valid(),
        forall|sp: u64| #[trigger] q0.space_ivs(sp) =~= Seq::<(u64, u64)>::empty(),
        q0.reg_space() == p0.reg_space(),
        q0.reg_ivs() == p0.reg_ivs(),
        AliasPass::indexed(q0, q1, uvars_of_stmts(out)),
        out.len() == ops.len(),
        forall|i: int| 0 <= i < ops.len() ==> #[trigger] out[i] == rewrite_stmt_spec(p1, ops[i]),
    ensures
        subsumed(p1, q1),
{
    let reg = p0.reg_space();
    assert(p1.reg_space() == reg && q1.reg_space() == reg);
    assert(q1.reg_ivs() == p1.reg_ivs());
    assert forall|sp: u64, j: int| 0 <= j < q1.space_ivs(sp).len() implies iv_known(
        p1,
        sp,
        #[trigger] q1.space_ivs(sp)[j],
    ) by {
        let rec = inserted_for(sp, reg, uvars_of_stmts(out));
        assert(q1.space_ivs(sp) =~= q0.space_ivs(sp) + rec);
        assert(q1.space_ivs(sp) =~= rec);
        let element = q1.space_ivs(sp)[j];
        assert(rec[j] == element);
        lemma_inserted_elements(sp, reg, uvars_of_stmts(out), j);
        let w = choose|w: UVar|
            in_seq(w, uvars_of_stmts(out)) && uvar_aligned(w) && w.space == sp && sp != reg
                && rec[j] == uvar_interval_spec(&w);
        lemma_stmts_member_bwd(out, w);
        let i = choose|i: int| 0 <= i < out.len() && in_seq(w, uvars_of_stmt(&out[i]));
        lemma_rewrite_vars_stmt(p1, ops[i]);
        assert(out[i] == rewrite_stmt_spec(p1, ops[i]));
        let wk = choose|wk: int|
            0 <= wk < uvars_of_stmt(&out[i]).len() && uvars_of_stmt(&out[i])[wk] == w;
        assert(from_enclosing(p1, uvars_of_stmt(&ops[i]), w));
        let vk = choose|vk: int|
            0 <= vk < uvars_of_stmt(&ops[i]).len() && w == p1.enclosing_v(
                uvars_of_stmt(&ops[i])[vk],
            );
        let v = uvars_of_stmt(&ops[i])[vk];
        // the origin is aligned: an unaligned variable is its own
        // enclosing variable, and the occurrence at hand is aligned
        assert(uvar_aligned(v));
        p1.lemma_valid_ivs(v.space);
        lemma_enclosing_props(p1.ivs_of(v.space), v.space, v);
        assert(w.space == v.space);
        assert(uvar_interval_spec(&w) == fold_enclose(
            p1.ivs_of(sp),
            uvar_interval_spec(&v),
        ));
        lemma_fold_enclose(p1.ivs_of(sp), uvar_interval_spec(&v));
        if p1.ivs_of(sp).contains(uvar_interval_spec(&w)) {
            let k = choose|k: int|
                0 <= k < p1.ivs_of(sp).len() && p1.ivs_of(sp)[k] == uvar_interval_spec(&w);
            assert(p1.space_ivs(sp)[k] == element);
            assert(iv_known(p1, sp, element));
        } else {
            assert(uvar_interval_spec(&w) == uvar_interval_spec(&v));
            lemma_stmts_member_fwd(ops, i, v);
            let vg = choose|vg: int|
                0 <= vg < uvars_of_stmts(ops).len() && uvars_of_stmts(ops)[vg] == v;
            lemma_inserted_membership(sp, reg, uvars_of_stmts(ops), vg);
            let jg = choose|jg: int|
                0 <= jg < inserted_for(sp, reg, uvars_of_stmts(ops)).len() && inserted_for(
                    sp,
                    reg,
                    uvars_of_stmts(ops),
                )[jg] == uvar_interval_spec(&v);
            assert(p1.space_ivs(sp) =~= p0.space_ivs(sp) + inserted_for(
                sp,
                reg,
                uvars_of_stmts(ops),
            ));
            assert(p1.space_ivs(sp)[jg] == element);
            assert(iv_known(p1, sp, element));
        }
    }
}

/// A space with no index looks up the empty list.
proof fn lemma_ivs_for_none(s: Seq<VarIndex>, space: u64)
    requires
        forall|j: int| 0 <= j < s.len() ==> (#[trigger] s[j]).space_spec() != space,
    ensures
        ivs_for(s, space) =~= Seq::<(u64, u64)>::empty(),
    decreases s.len(),
{
    if s.len() > 0 {
        assert(forall|j: int|
            0 <= j < s.skip(1).len() ==> (#[trigger] s.skip(1)[j]).space_spec() != space);
        lemma_ivs_for_none(s.skip(1), space);
    }
}

} // verus!
