//! The asset-balance ledger: for each (asset, account) a balance split into a
//! `free` and a `locked` partition. The ledger knows nothing about orders;
//! the matching engine drives it through `lock`, `unlock`, `mint`, `burn`,
//! `transfer` and the per-fill settlement `exchange_token`.

use vstd::prelude::*;

use crate::types::bytes_eq;
use crate::types::clone_bytes;
use crate::types::DexError;
use crate::types::TokenControl;

verus! {

/// One ledger cell: the balances of one account in one asset.
pub struct TokenEntry {
    pub tokentype: Vec<u8>,
    pub who: u64,
    pub free: u64,
    pub locked: u64,
}

/// One registered asset with its display precision.
pub struct TokenType {
    pub tokentype: Vec<u8>,
    pub precision: u64,
}

/// Whether entry `e` is the cell of account `who` in asset `t`.
pub open spec fn entry_is(e: TokenEntry, t: Seq<u8>, who: u64) -> bool {
    e.tokentype@ == t && e.who == who
}

/// The free balance recorded for `(t, who)`: the first matching cell, or zero.
pub open spec fn free_of(s: Seq<TokenEntry>, t: Seq<u8>, who: u64) -> u64
    decreases s.len(),
{
    if s.len() == 0 {
        0u64
    } else if entry_is(s[0], t, who) {
        s[0].free
    } else {
        free_of(s.skip(1), t, who)
    }
}

/// The locked balance recorded for `(t, who)`: the first matching cell, or zero.
pub open spec fn locked_of(s: Seq<TokenEntry>, t: Seq<u8>, who: u64) -> u64
    decreases s.len(),
{
    if s.len() == 0 {
        0u64
    } else if entry_is(s[0], t, who) {
        s[0].locked
    } else {
        locked_of(s.skip(1), t, who)
    }
}

/// The total supply of asset `t` held anywhere in the ledger, free or locked.
pub open spec fn total_of(s: Seq<TokenEntry>, t: Seq<u8>) -> int
    decreases s.len(),
{
    if s.len() == 0 {
        0
    } else {
        (if s[0].tokentype@ == t {
            s[0].free + s[0].locked
        } else {
            0
        }) + total_of(s.skip(1), t)
    }
}

/// No two cells address the same (asset, account).
pub open spec fn entries_unique(s: Seq<TokenEntry>) -> bool {
    forall|i: int, j: int|
        0 <= i < j < s.len() ==> !(s[i].tokentype@ == s[j].tokentype@ && s[i].who == s[j].who)
}

/// The precision registered for asset `t`, if any.
pub open spec fn precision_of(ts: Seq<TokenType>, t: Seq<u8>) -> Option<u64>
    decreases ts.len(),
{
    if ts.len() == 0 {
        None
    } else if ts[0].tokentype@ == t {
        Some(ts[0].precision)
    } else {
        precision_of(ts.skip(1), t)
    }
}

/// Whether asset `t` is a registered token type.
pub open spec fn registered(ts: Seq<TokenType>, t: Seq<u8>) -> bool {
    precision_of(ts, t) is Some
}

/// No asset is registered twice.
pub open spec fn types_unique(ts: Seq<TokenType>) -> bool {
    forall|i: int, j: int| 0 <= i < j < ts.len() ==> ts[i].tokentype@ != ts[j].tokentype@
}

/// If the first matching cell for `(t, who)` is at position `i`, the lookups
/// read exactly that cell.
pub proof fn lemma_first_match(s: Seq<TokenEntry>, t: Seq<u8>, who: u64, i: int)
    requires
        0 <= i < s.len(),
        entry_is(s[i], t, who),
        forall|k: int| 0 <= k < i ==> !entry_is(s[k], t, who),
    ensures
        free_of(s, t, who) == s[i].free,
        locked_of(s, t, who) == s[i].locked,
    decreases i,
{
    if i > 0 {
        lemma_first_match(s.skip(1), t, who, i - 1);
    }
}

/// Lookups on a ledger with no cell for `(t, who)` read zero.
pub proof fn lemma_absent(s: Seq<TokenEntry>, t: Seq<u8>, who: u64)
    requires
        forall|k: int| 0 <= k < s.len() ==> !entry_is(s[k], t, who),
    ensures
        free_of(s, t, who) == 0,
        locked_of(s, t, who) == 0,
    decreases s.len(),
{
    if s.len() > 0 {
        lemma_absent(s.skip(1), t, who);
    }
}

/// The asset total is never negative.
pub proof fn lemma_total_nonneg(s: Seq<TokenEntry>, t: Seq<u8>)
    ensures
        total_of(s, t) >= 0,
    decreases s.len(),
{
    if s.len() > 0 {
        lemma_total_nonneg(s.skip(1), t);
    }
}

/// Replacing cell `i` by a cell with the same key changes the lookups only at
/// that key, and shifts the asset total by the change in the cell.
pub proof fn lemma_update_entry(s: Seq<TokenEntry>, i: int, e: TokenEntry, t: Seq<u8>, who: u64)
    requires
        entries_unique(s),
        0 <= i < s.len(),
        e.tokentype@ == s[i].tokentype@,
        e.who == s[i].who,
    ensures
        free_of(s.update(i, e), t, who) == if entry_is(s[i], t, who) {
            e.free
        } else {
            free_of(s, t, who)
        },
        locked_of(s.update(i, e), t, who) == if entry_is(s[i], t, who) {
            e.locked
        } else {
            locked_of(s, t, who)
        },
        total_of(s.update(i, e), t) == total_of(s, t) + (if s[i].tokentype@ == t {
            e.free + e.locked - s[i].free - s[i].locked
        } else {
            0
        }),
    decreases s.len(),
{
    let s2 = s.update(i, e);
    if i == 0 {
        assert(s2.skip(1) =~= s.skip(1));
        if entry_is(s[0], t, who) {
            assert(entry_is(s2[0], t, who));
        }
    } else {
        assert(s2.skip(1) =~= s.skip(1).update(i - 1, e));
        assert(entries_unique(s.skip(1))) by {
            assert forall|a: int, b: int|
                0 <= a < b < s.skip(1).len() implies !(s.skip(1)[a].tokentype@ == s.skip(
                1,
            )[b].tokentype@ && s.skip(1)[a].who == s.skip(1)[b].who) by {
                assert(s.skip(1)[a] == s[a + 1]);
                assert(s.skip(1)[b] == s[b + 1]);
            }
        }
        lemma_update_entry(s.skip(1), i - 1, e, t, who);
        // the head keeps its key distinct from the updated cell's key
        assert(!(s[0].tokentype@ == s[i].tokentype@ && s[0].who == s[i].who));
    }
}

/// Uniqueness of keys survives replacing a cell by one with the same key.
pub proof fn lemma_update_unique(s: Seq<TokenEntry>, i: int, e: TokenEntry)
    requires
        entries_unique(s),
        0 <= i < s.len(),
        e.tokentype@ == s[i].tokentype@,
        e.who == s[i].who,
    ensures
        entries_unique(s.update(i, e)),
{
    let s2 = s.update(i, e);
    assert forall|a: int, b: int|
        0 <= a < b < s2.len() implies !(s2[a].tokentype@ == s2[b].tokentype@ && s2[a].who
        == s2[b].who) by {
        assert(s2[a].tokentype@ == s[a].tokentype@ && s2[a].who == s[a].who);
        assert(s2[b].tokentype@ == s[b].tokentype@ && s2[b].who == s[b].who);
    }
}

/// Appending a cell with a fresh key changes the lookups only at that key and
/// adds the cell's contents to its asset's total.
pub proof fn lemma_push_entry(s: Seq<TokenEntry>, e: TokenEntry, t: Seq<u8>, who: u64)
    requires
        forall|k: int| 0 <= k < s.len() ==> !entry_is(s[k], e.tokentype@, e.who),
    ensures
        free_of(s.push(e), t, who) == if t == e.tokentype@ && who == e.who {
            e.free
        } else {
            free_of(s, t, who)
        },
        locked_of(s.push(e), t, who) == if t == e.tokentype@ && who == e.who {
            e.locked
        } else {
            locked_of(s, t, who)
        },
        total_of(s.push(e), t) == total_of(s, t) + (if e.tokentype@ == t {
            e.free + e.locked
        } else {
            0
        }),
    decreases s.len(),
{
    if s.len() == 0 {
        assert(s.push(e)[0] == e);
        assert(s.push(e).skip(1) =~= Seq::<TokenEntry>::empty());
        assert(free_of(Seq::<TokenEntry>::empty(), t, who) == 0u64);
        assert(locked_of(Seq::<TokenEntry>::empty(), t, who) == 0u64);
        assert(total_of(Seq::<TokenEntry>::empty(), t) == 0);
    } else {
        assert(s.push(e)[0] == s[0]);
        assert forall|k: int| 0 <= k < s.skip(1).len() implies !entry_is(
            s.skip(1)[k],
            e.tokentype@,
            e.who,
        ) by {
            assert(s.skip(1)[k] == s[k + 1]);
        }
        assert(s.push(e).skip(1) =~= s.skip(1).push(e));
        lemma_push_entry(s.skip(1), e, t, who);
    }
}

/// Uniqueness of keys survives appending a cell with a fresh key.
pub proof fn lemma_push_unique(s: Seq<TokenEntry>, e: TokenEntry)
    requires
        entries_unique(s),
        forall|k: int| 0 <= k < s.len() ==> !entry_is(s[k], e.tokentype@, e.who),
    ensures
        entries_unique(s.push(e)),
{
    let s2 = s.push(e);
    assert forall|a: int, b: int|
        0 <= a < b < s2.len() implies !(s2[a].tokentype@ == s2[b].tokentype@ && s2[a].who
        == s2[b].who) by {
        if b < s.len() {
            assert(s2[a] == s[a] && s2[b] == s[b]);
        } else {
            assert(s2[b] == e && s2[a] == s[a]);
        }
    }
}

/// One account's holding of an asset never exceeds the asset's total.
pub proof fn lemma_key_le_total(s: Seq<TokenEntry>, t: Seq<u8>, who: u64)
    requires
        entries_unique(s),
    ensures
        free_of(s, t, who) + locked_of(s, t, who) <= total_of(s, t),
    decreases s.len(),
{
    lemma_total_nonneg(s, t);
    if s.len() > 0 {
        assert(entries_unique(s.skip(1))) by {
            assert forall|a: int, b: int|
                0 <= a < b < s.skip(1).len() implies !(s.skip(1)[a].tokentype@ == s.skip(
                1,
            )[b].tokentype@ && s.skip(1)[a].who == s.skip(1)[b].who) by {
                assert(s.skip(1)[a] == s[a + 1]);
                assert(s.skip(1)[b] == s[b + 1]);
            }
        }
        lemma_key_le_total(s.skip(1), t, who);
        lemma_total_nonneg(s.skip(1), t);
        if entry_is(s[0], t, who) {
            // no later cell repeats the key, so the tail lookups read zero
            assert forall|k: int| 0 <= k < s.skip(1).len() implies !entry_is(
                s.skip(1)[k],
                t,
                who,
            ) by {
                assert(s.skip(1)[k] == s[k + 1]);
            }
            lemma_absent(s.skip(1), t, who);
        }
    }
}

/// Two accounts' holdings of an asset never exceed the asset's total together.
pub proof fn lemma_two_keys_le_total(s: Seq<TokenEntry>, t: Seq<u8>, who1: u64, who2: u64)
    requires
        entries_unique(s),
        who1 != who2,
    ensures
        free_of(s, t, who1) + locked_of(s, t, who1) + free_of(s, t, who2) + locked_of(s, t, who2)
            <= total_of(s, t),
    decreases s.len(),
{
    lemma_total_nonneg(s, t);
    if s.len() > 0 {
        assert(entries_unique(s.skip(1))) by {
            assert forall|a: int, b: int|
                0 <= a < b < s.skip(1).len() implies !(s.skip(1)[a].tokentype@ == s.skip(
                1,
            )[b].tokentype@ && s.skip(1)[a].who == s.skip(1)[b].who) by {
                assert(s.skip(1)[a] == s[a + 1]);
                assert(s.skip(1)[b] == s[b + 1]);
            }
        }
        if entry_is(s[0], t, who1) || entry_is(s[0], t, who2) {
            let other = if entry_is(s[0], t, who1) {
                who2
            } else {
                who1
            };
            let this = if entry_is(s[0], t, who1) {
                who1
            } else {
                who2
            };
            assert forall|k: int| 0 <= k < s.skip(1).len() implies !entry_is(
                s.skip(1)[k],
                t,
                this,
            ) by {
                assert(s.skip(1)[k] == s[k + 1]);
            }
            lemma_absent(s.skip(1), t, this);
            lemma_key_le_total(s.skip(1), t, other);
        } else {
            lemma_two_keys_le_total(s.skip(1), t, who1, who2);
        }
    }
}

/// The asset total splits across any prefix/suffix boundary.
pub proof fn lemma_total_split(s: Seq<TokenEntry>, t: Seq<u8>, i: int)
    requires
        0 <= i <= s.len(),
    ensures
        total_of(s, t) == total_of(s.take(i), t) + total_of(s.skip(i), t),
    decreases i,
{
    if i == 0 {
        assert(s.take(0) =~= Seq::<TokenEntry>::empty());
        assert(s.skip(0) =~= s);
    } else {
        lemma_total_split(s.skip(1), t, i - 1);
        assert(s.take(i).skip(1) =~= s.skip(1).take(i - 1));
        assert(s.skip(1).skip(i - 1) =~= s.skip(i));
        assert(total_of(s.take(i), t) == (if s[0].tokentype@ == t {
            s[0].free + s[0].locked
        } else {
            0
        }) + total_of(s.skip(1).take(i - 1), t));
    }
}

/// If the first matching registration for `t` is at position `i`, the lookup
/// reads exactly that registration.
pub proof fn lemma_first_match_type(ts: Seq<TokenType>, t: Seq<u8>, i: int)
    requires
        0 <= i < ts.len(),
        ts[i].tokentype@ == t,
        forall|k: int| 0 <= k < i ==> ts[k].tokentype@ != t,
    ensures
        precision_of(ts, t) == Some(ts[i].precision),
    decreases i,
{
    if i > 0 {
        lemma_first_match_type(ts.skip(1), t, i - 1);
    }
}

/// An asset with no registration has no precision.
pub proof fn lemma_absent_type(ts: Seq<TokenType>, t: Seq<u8>)
    requires
        forall|k: int| 0 <= k < ts.len() ==> ts[k].tokentype@ != t,
    ensures
        precision_of(ts, t) is None,
    decreases ts.len(),
{
    if ts.len() > 0 {
        lemma_absent_type(ts.skip(1), t);
    }
}

/// Updating or appending a registration changes the precision lookup only for
/// that asset.
pub proof fn lemma_type_update(ts: Seq<TokenType>, i: int, e: TokenType, t: Seq<u8>)
    requires
        types_unique(ts),
        0 <= i < ts.len(),
        e.tokentype@ == ts[i].tokentype@,
    ensures
        precision_of(ts.update(i, e), t) == if ts[i].tokentype@ == t {
            Some(e.precision)
        } else {
            precision_of(ts, t)
        },
    decreases ts.len(),
{
    let s2 = ts.update(i, e);
    if i == 0 {
        assert(s2.skip(1) =~= ts.skip(1));
    } else {
        assert(s2.skip(1) =~= ts.skip(1).update(i - 1, e));
        assert(types_unique(ts.skip(1))) by {
            assert forall|a: int, b: int|
                0 <= a < b < ts.skip(1).len() implies ts.skip(1)[a].tokentype@ != ts.skip(
                1,
            )[b].tokentype@ by {
                assert(ts.skip(1)[a] == ts[a + 1]);
                assert(ts.skip(1)[b] == ts[b + 1]);
            }
        }
        lemma_type_update(ts.skip(1), i - 1, e, t);
    }
}

/// Appending a registration for a fresh asset changes the lookup only there.
pub proof fn lemma_type_push(ts: Seq<TokenType>, e: TokenType, t: Seq<u8>)
    requires
        forall|k: int| 0 <= k < ts.len() ==> ts[k].tokentype@ != e.tokentype@,
    ensures
        precision_of(ts.push(e), t) == if e.tokentype@ == t {
            Some(e.precision)
        } else {
            precision_of(ts, t)
        },
    decreases ts.len(),
{
    if ts.len() == 0 {
        assert(ts.push(e)[0] == e);
        assert(ts.push(e).skip(1) =~= Seq::<TokenType>::empty());
        assert(precision_of(Seq::<TokenType>::empty(), t) is None);
    } else {
        assert(ts.push(e)[0] == ts[0]);
        assert forall|k: int| 0 <= k < ts.skip(1).len() implies ts.skip(1)[k].tokentype@
            != e.tokentype@ by {
            assert(ts.skip(1)[k] == ts[k + 1]);
        }
        assert(ts.push(e).skip(1) =~= ts.skip(1).push(e));
        lemma_type_push(ts.skip(1), e, t);
    }
}

/// The ledger: balance cells plus the registry of known token types.
pub struct Ledger {
    pub entries: Vec<TokenEntry>,
    pub types: Vec<TokenType>,
}

impl Ledger {
    /// The free balance of account `who` in asset `t`.
    pub open spec fn free(self, t: Seq<u8>, who: u64) -> u64 {
        free_of(self.entries@, t, who)
    }

    /// The locked balance of account `who` in asset `t`.
    pub open spec fn locked(self, t: Seq<u8>, who: u64) -> u64 {
        locked_of(self.entries@, t, who)
    }

    /// The total supply of asset `t`, free and locked, over all accounts.
    pub open spec fn total(self, t: Seq<u8>) -> int {
        total_of(self.entries@, t)
    }

    /// The registered precision of asset `t`, if any.
    pub open spec fn precision(self, t: Seq<u8>) -> Option<u64> {
        precision_of(self.types@, t)
    }

    /// Whether asset `t` is a registered token type.
    pub open spec fn is_registered(self, t: Seq<u8>) -> bool {
        registered(self.types@, t)
    }

    /// Well-formedness: keys are unique and no asset's supply exceeds `u64::MAX`,
    /// so every credit the engine makes is known to fit.
    pub open spec fn wf(self) -> bool {
        &&& entries_unique(self.entries@)
        &&& types_unique(self.types@)
        &&& forall|t: Seq<u8>| #![trigger self.total(t)] self.total(t) <= u64::MAX
    }

    /// An empty ledger: no balances, no registered assets.
    pub fn new() -> (r: Ledger)
        ensures
            r.wf(),
            r.entries@ =~= Seq::<TokenEntry>::empty(),
            r.types@ =~= Seq::<TokenType>::empty(),
    {
        Ledger { entries: Vec::new(), types: Vec::new() }
    }

    /// The position of the cell for `(tokentype, who)`, if one exists.
    fn find_entry(&self, tokentype: &Vec<u8>, who: u64) -> (r: Option<usize>)
        ensures
            match r {
                Some(i) => {
                    &&& i < self.entries@.len()
                    &&& entry_is(self.entries@[i as int], tokentype@, who)
                    &&& forall|k: int| 0 <= k < i ==> !entry_is(self.entries@[k], tokentype@, who)
                },
                None => forall|k: int|
                    0 <= k < self.entries@.len() ==> !entry_is(self.entries@[k], tokentype@, who),
            },
    {
        let mut i: usize = 0;
        while i < self.entries.len()
            invariant
                i <= self.entries@.len(),
                forall|k: int| 0 <= k < i ==> !entry_is(self.entries@[k], tokentype@, who),
            decreases self.entries@.len() - i,
        {
            if bytes_eq(&self.entries[i].tokentype, tokentype) && self.entries[i].who == who {
                return Some(i);
            }
            i = i + 1;
        }
        None
    }

    /// The position of the registration of `tokentype`, if one exists.
    fn find_type(&self, tokentype: &Vec<u8>) -> (r: Option<usize>)
        ensures
            match r {
                Some(i) => {
                    &&& i < self.types@.len()
                    &&& self.types@[i as int].tokentype@ == tokentype@
                    &&& forall|k: int| 0 <= k < i ==> self.types@[k].tokentype@ != tokentype@
                },
                None => forall|k: int|
                    0 <= k < self.types@.len() ==> self.types@[k].tokentype@ != tokentype@,
            },
    {
        let mut i: usize = 0;
        while i < self.types.len()
            invariant
                i <= self.types@.len(),
                forall|k: int| 0 <= k < i ==> self.types@[k].tokentype@ != tokentype@,
            decreases self.types@.len() - i,
        {
            if bytes_eq(&self.types[i].tokentype, tokentype) {
                return Some(i);
            }
            i = i + 1;
        }
        None
    }

    /// Register `tokentype` with the given precision, overwriting an earlier
    /// registration of the same asset.
    pub fn add_new_tokentype(&mut self, tokentypt: &Vec<u8>, precision: u64)
        requires
            old(self).wf(),
        ensures
            final(self).wf(),
            final(self).entries@ == old(self).entries@,
            forall|t: Seq<u8>|
                final(self).precision(t) == if t == tokentypt@ {
                    Some(precision)
                } else {
                    old(self).precision(t)
                },
    {
        match self.find_type(tokentypt) {
            Some(i) => {
                let mut e = self.types.remove(i);
                e.precision = precision;
                self.types.insert(i, e);
                proof {
                    assert(self.types@ =~= old(self).types@.update(
                        i as int,
                        TokenType { tokentype: old(self).types@[i as int].tokentype, precision },
                    ));
                    assert forall|t: Seq<u8>|
                        final(self).precision(t) == if t == tokentypt@ {
                            Some(precision)
                        } else {
                            old(self).precision(t)
                        } by {
                        lemma_type_update(
                            old(self).types@,
                            i as int,
                            self.types@[i as int],
                            t,
                        );
                    }
                    assert forall|a: int, b: int|
                        0 <= a < b < self.types@.len() implies self.types@[a].tokentype@
                        != self.types@[b].tokentype@ by {
                        assert(self.types@[a].tokentype@ == old(self).types@[a].tokentype@);
                        assert(self.types@[b].tokentype@ == old(self).types@[b].tokentype@);
                    }
                }
            },
            None => {
                let e = TokenType { tokentype: clone_bytes(tokentypt), precision };
                self.types.push(e);
                proof {
                    assert forall|t: Seq<u8>|
                        final(self).precision(t) == if t == tokentypt@ {
                            Some(precision)
                        } else {
                            old(self).precision(t)
                        } by {
                        lemma_type_push(
                            old(self).types@,
                            self.types@[self.types@.len() - 1],
                            t,
                        );
                    }
                    assert forall|a: int, b: int|
                        0 <= a < b < self.types@.len() implies self.types@[a].tokentype@
                        != self.types@[b].tokentype@ by {
                        if b < old(self).types@.len() {
                            assert(self.types@[a] == old(self).types@[a]);
                            assert(self.types@[b] == old(self).types@[b]);
                        } else {
                            assert(self.types@[a] == old(self).types@[a]);
                        }
                    }
                }
            },
        }
        proof {
            assert forall|t: Seq<u8>| self.total(t) <= u64::MAX by {
                assert(old(self).total(t) <= u64::MAX);
            }
        }
    }

    /// Register the two assets the engine starts with.
    pub fn init_token(&mut self)
        requires
            old(self).wf(),
        ensures
            final(self).wf(),
            final(self).entries@ == old(self).entries@,
            forall|t: Seq<u8>|
                final(self).precision(t) == if t == seq![1u8, 2u8] || t == seq![3u8, 4u8] {
                    Some(1000u64)
                } else {
                    old(self).precision(t)
                },
    {
        let first: Vec<u8> = vec![1u8, 2u8];
        let second: Vec<u8> = vec![3u8, 4u8];
        proof {
            assert(first@ =~= seq![1u8, 2u8]);
            assert(second@ =~= seq![3u8, 4u8]);
        }
        self.add_new_tokentype(&first, 1000);
        self.add_new_tokentype(&second, 1000);
    }

    /// The registered precision of an asset, if any.
    pub fn token_type_and_precision(&self, tokentype: &Vec<u8>) -> (r: Option<u64>)
        ensures
            r == self.precision(tokentype@),
    {
        match self.find_type(tokentype) {
            Some(i) => {
                proof {
                    lemma_first_match_type(self.types@, tokentype@, i as int);
                }
                Some(self.types[i].precision)
            },
            None => {
                proof {
                    lemma_absent_type(self.types@, tokentype@);
                }
                None
            },
        }
    }

    /// Fails with `UnknownAsset` exactly when the asset is not registered.
    pub fn vaild_tokentype(&self, tokentype: &Vec<u8>) -> (r: Result<(), DexError>)
        ensures
            r is Ok <==> self.is_registered(tokentype@),
            r is Err ==> r == Result::<(), DexError>::Err(DexError::UnknownAsset),
    {
        match self.token_type_and_precision(tokentype) {
            Some(_) => Ok(()),
            None => Err(DexError::UnknownAsset),
        }
    }

    /// The free balance of `who` in `tokentype`; zero when no cell exists.
    pub fn amount_free(&self, who: u64, tokentype: &Vec<u8>) -> (r: u64)
        ensures
            r == self.free(tokentype@, who),
    {
        match self.find_entry(tokentype, who) {
            Some(i) => {
                proof {
                    lemma_first_match(self.entries@, tokentype@, who, i as int);
                }
                self.entries[i].free
            },
            None => {
                proof {
                    lemma_absent(self.entries@, tokentype@, who);
                }
                0
            },
        }
    }

    /// Record `val` as the free balance of `(tokentype, who)`, creating the
    /// cell if absent. A raw setter: it can change an asset's total supply,
    /// so the supply bound of `wf` is the caller's to re-establish.
    pub fn set_free_token(&mut self, who: u64, tokentype: &Vec<u8>, val: u64)
        requires
            entries_unique(old(self).entries@),
        ensures
            entries_unique(final(self).entries@),
            final(self).types@ == old(self).types@,
            forall|t: Seq<u8>, w: u64|
                #![trigger final(self).free(t, w)]
                final(self).free(t, w) == if t == tokentype@ && w == who {
                    val
                } else {
                    old(self).free(t, w)
                },
            forall|t: Seq<u8>, w: u64|
                #![trigger final(self).locked(t, w)]
                final(self).locked(t, w) == old(self).locked(t, w),
            forall|t: Seq<u8>|
                #![trigger final(self).total(t)]
                final(self).total(t) == old(self).total(t) + (if t == tokentype@ {
                    val - old(self).free(t, who)
                } else {
                    0
                }),
    {
        match self.find_entry(tokentype, who) {
            Some(i) => {
                let mut e = self.entries.remove(i);
                e.free = val;
                self.entries.insert(i, e);
                proof {
                    let e2 = self.entries@[i as int];
                    assert(self.entries@ =~= old(self).entries@.update(i as int, e2));
                    lemma_first_match(old(self).entries@, tokentype@, who, i as int);
                    lemma_update_unique(old(self).entries@, i as int, e2);
                    assert forall|t: Seq<u8>, w: u64|
                        final(self).free(t, w) == (if t == tokentype@ && w == who {
                            val as int
                        } else {
                            old(self).free(t, w) as int
                        }) && final(self).locked(t, w) == old(self).locked(t, w) by {
                        lemma_update_entry(old(self).entries@, i as int, e2, t, w);
                        if entry_is(old(self).entries@[i as int], t, w) {
                            lemma_first_match(old(self).entries@, t, w, i as int);
                        }
                    }
                    assert forall|t: Seq<u8>|
                        final(self).total(t) == old(self).total(t) + (if t == tokentype@ {
                            val - old(self).free(t, who)
                        } else {
                            0
                        }) by {
                        lemma_update_entry(old(self).entries@, i as int, e2, t, who);
                        if old(self).entries@[i as int].tokentype@ == t {
                            lemma_first_match(old(self).entries@, t, who, i as int);
                        }
                    }
                }
            },
            None => {
                let e = TokenEntry { tokentype: clone_bytes(tokentype), who, free: val, locked: 0 };
                self.entries.push(e);
                proof {
                    let e2 = self.entries@[self.entries@.len() - 1];
                    assert(self.entries@ =~= old(self).entries@.push(e2));
                    lemma_absent(old(self).entries@, tokentype@, who);
                    lemma_push_unique(old(self).entries@, e2);
                    assert forall|t: Seq<u8>, w: u64|
                        final(self).free(t, w) == (if t == tokentype@ && w == who {
                            val as int
                        } else {
                            old(self).free(t, w) as int
                        }) && final(self).locked(t, w) == old(self).locked(t, w) by {
                        lemma_push_entry(old(self).entries@, e2, t, w);
                        if t == tokentype@ && w == who {
                            lemma_absent(old(self).entries@, t, w);
                        }
                    }
                    assert forall|t: Seq<u8>|
                        final(self).total(t) == old(self).total(t) + (if t == tokentype@ {
                            val - old(self).free(t, who)
                        } else {
                            0
                        }) by {
                        lemma_push_entry(old(self).entries@, e2, t, who);
                        if t == tokentype@ {
                            lemma_absent(old(self).entries@, t, who);
                        }
                    }
                }
            },
        }
    }

    /// Record `val` as the locked balance of `(tokentype, who)`, creating the
    /// cell if absent. A raw setter, like `set_free_token`.
    pub fn set_lock_token(&mut self, who: u64, tokentype: &Vec<u8>, val: u64)
        requires
            entries_unique(old(self).entries@),
        ensures
            entries_unique(final(self).entries@),
            final(self).types@ == old(self).types@,
            forall|t: Seq<u8>, w: u64|
                #![trigger final(self).locked(t, w)]
                final(self).locked(t, w) == if t == tokentype@ && w == who {
                    val
                } else {
                    old(self).locked(t, w)
                },
            forall|t: Seq<u8>, w: u64|
                #![trigger final(self).free(t, w)]
                final(self).free(t, w) == old(self).free(t, w),
            forall|t: Seq<u8>|
                #![trigger final(self).total(t)]
                final(self).total(t) == old(self).total(t) + (if t == tokentype@ {
                    val - old(self).locked(t, who)
                } else {
                    0
                }),
    {
        match self.find_entry(tokentype, who) {
            Some(i) => {
                let mut e = self.entries.remove(i);
                e.locked = val;
                self.entries.insert(i, e);
                proof {
                    let e2 = self.entries@[i as int];
                    assert(self.entries@ =~= old(self).entries@.update(i as int, e2));
                    lemma_first_match(old(self).entries@, tokentype@, who, i as int);
                    lemma_update_unique(old(self).entries@, i as int, e2);
                    assert forall|t: Seq<u8>, w: u64|
                        final(self).locked(t, w) == (if t == tokentype@ && w == who {
                            val as int
                        } else {
                            old(self).locked(t, w) as int
                        }) && final(self).free(t, w) == old(self).free(t, w) by {
                        lemma_update_entry(old(self).entries@, i as int, e2, t, w);
                        if entry_is(old(self).entries@[i as int], t, w) {
                            lemma_first_match(old(self).entries@, t, w, i as int);
                        }
                    }
                    assert forall|t: Seq<u8>|
                        final(self).total(t) == old(self).total(t) + (if t == tokentype@ {
                            val - old(self).locked(t, who)
                        } else {
                            0
                        }) by {
                        lemma_update_entry(old(self).entries@, i as int, e2, t, who);
                        if old(self).entries@[i as int].tokentype@ == t {
                            lemma_first_match(old(self).entries@, t, who, i as int);
                        }
                    }
                }
            },
            None => {
                let e = TokenEntry { tokentype: clone_bytes(tokentype), who, free: 0, locked: val };
                self.entries.push(e);
                proof {
                    let e2 = self.entries@[self.entries@.len() - 1];
                    assert(self.entries@ =~= old(self).entries@.push(e2));
                    lemma_absent(old(self).entries@, tokentype@, who);
                    lemma_push_unique(old(self).entries@, e2);
                    assert forall|t: Seq<u8>, w: u64|
                        final(self).locked(t, w) == (if t == tokentype@ && w == who {
                            val as int
                        } else {
                            old(self).locked(t, w) as int
                        }) && final(self).free(t, w) == old(self).free(t, w) by {
                        lemma_push_entry(old(self).entries@, e2, t, w);
                        if t == tokentype@ && w == who {
                            lemma_absent(old(self).entries@, t, w);
                        }
                    }
                    assert forall|t: Seq<u8>|
                        final(self).total(t) == old(self).total(t) + (if t == tokentype@ {
                            val - old(self).locked(t, who)
                        } else {
                            0
                        }) by {
                        lemma_push_entry(old(self).entries@, e2, t, who);
                        if t == tokentype@ {
                            lemma_absent(old(self).entries@, t, who);
                        }
                    }
                }
            },
        }
    }

    /// The locked balance of `who` in `tokentype`; zero when no cell exists.
    pub fn amount_lock(&self, who: u64, tokentype: &Vec<u8>) -> (r: u64)
        ensures
            r == self.locked(tokentype@, who),
    {
        match self.find_entry(tokentype, who) {
            Some(i) => {
                proof {
                    lemma_first_match(self.entries@, tokentype@, who, i as int);
                }
                self.entries[i].locked
            },
            None => {
                proof {
                    lemma_absent(self.entries@, tokentype@, who);
                }
                0
            },
        }
    }

    /// Raise or reduce one partition of one balance by `value`. The caller
    /// guarantees the move neither underflows the cell nor overflows `u64`.
    pub fn token_increase_or_decrease(
        &mut self,
        who: u64,
        tokentype: &Vec<u8>,
        value: u64,
        changetype: TokenControl,
        add: bool,
    )
        requires
            entries_unique(old(self).entries@),
            changetype is Free && add ==> old(self).free(tokentype@, who) + value <= u64::MAX,
            changetype is Free && !add ==> old(self).free(tokentype@, who) >= value,
            changetype is Lock && add ==> old(self).locked(tokentype@, who) + value <= u64::MAX,
            changetype is Lock && !add ==> old(self).locked(tokentype@, who) >= value,
        ensures
            entries_unique(final(self).entries@),
            final(self).types@ == old(self).types@,
            forall|t: Seq<u8>, w: u64|
                #![trigger final(self).free(t, w)]
                final(self).free(t, w) as int == old(self).free(t, w) + (if t == tokentype@ && w
                    == who && changetype is Free {
                    if add {
                        value as int
                    } else {
                        -(value as int)
                    }
                } else {
                    0
                }),
            forall|t: Seq<u8>, w: u64|
                #![trigger final(self).locked(t, w)]
                final(self).locked(t, w) as int == old(self).locked(t, w) + (if t == tokentype@ && w
                    == who && changetype is Lock {
                    if add {
                        value as int
                    } else {
                        -(value as int)
                    }
                } else {
                    0
                }),
            forall|t: Seq<u8>|
                #![trigger final(self).total(t)]
                final(self).total(t) == old(self).total(t) + (if t == tokentype@ {
                    if add {
                        value as int
                    } else {
                        -(value as int)
                    }
                } else {
                    0
                }),
    {
        match changetype {
            TokenControl::Free => {
                let old_v = self.amount_free(who, tokentype);
                let new_v = if add {
                    old_v + value
                } else {
                    old_v - value
                };
                self.set_free_token(who, tokentype, new_v);
            },
            TokenControl::Lock => {
                let old_v = self.amount_lock(who, tokentype);
                let new_v = if add {
                    old_v + value
                } else {
                    old_v - value
                };
                self.set_lock_token(who, tokentype, new_v);
            },
        }
    }

    /// The total supply of `tokentype` currently recorded, free plus locked.
    fn compute_total(&self, tokentype: &Vec<u8>) -> (r: u128)
        requires
            forall|t: Seq<u8>| #![trigger self.total(t)] self.total(t) <= u64::MAX,
        ensures
            r == self.total(tokentype@),
    {
        proof {
            lemma_total_nonneg(self.entries@, tokentype@);
            assert(self.total(tokentype@) <= u64::MAX);
        }
        let mut acc: u128 = 0;
        let mut i: usize = 0;
        while i < self.entries.len()
            invariant
                i <= self.entries@.len(),
                acc == total_of(self.entries@.take(i as int), tokentype@),
                acc <= u64::MAX,
                total_of(self.entries@, tokentype@) <= u64::MAX,
            decreases self.entries@.len() - i,
        {
            proof {
                let s = self.entries@;
                let t = tokentype@;
                lemma_total_split(s.take(i + 1), t, i as int);
                assert(s.take(i + 1).take(i as int) =~= s.take(i as int));
                assert(s.take(i + 1).skip(i as int) =~= seq![s[i as int]]);
                assert(seq![s[i as int]].skip(1) =~= Seq::<TokenEntry>::empty());
                assert(total_of(Seq::<TokenEntry>::empty(), t) == 0);
                assert(total_of(seq![s[i as int]], t) == (if s[i as int].tokentype@ == t {
                    s[i as int].free + s[i as int].locked
                } else {
                    0
                }));
                lemma_total_split(s, t, i + 1);
                lemma_total_nonneg(s.skip(i + 1), t);
                lemma_total_nonneg(s.take(i as int), t);
            }
            if bytes_eq(&self.entries[i].tokentype, tokentype) {
                acc = acc + (self.entries[i].free as u128) + (self.entries[i].locked as u128);
            }
            i = i + 1;
        }
        proof {
            assert(self.entries@.take(i as int) =~= self.entries@);
        }
        acc
    }

    /// Create `value` fresh units of `tokentype` in the free balance of
    /// `dest`. Succeeds exactly when the asset is registered and its total
    /// supply stays within `u64`.
    pub fn mint(&mut self, dest: u64, tokentype: &Vec<u8>, value: u64) -> (r: Result<(), DexError>)
        requires
            old(self).wf(),
        ensures
            final(self).wf(),
            final(self).types@ == old(self).types@,
            r is Ok <==> old(self).is_registered(tokentype@) && old(self).total(tokentype@) + value
                <= u64::MAX,
            r is Err ==> *final(self) == *old(self),
            !old(self).is_registered(tokentype@) ==> r == Result::<(), DexError>::Err(
                DexError::UnknownAsset,
            ),
            old(self).is_registered(tokentype@) && old(self).total(tokentype@) + value > u64::MAX
                ==> r == Result::<(), DexError>::Err(DexError::Overflow),
            r is Ok ==> forall|t: Seq<u8>, w: u64|
                #![trigger final(self).free(t, w)]
                final(self).free(t, w) as int == old(self).free(t, w) + (if t == tokentype@ && w
                    == dest {
                    value as int
                } else {
                    0
                }),
            r is Ok ==> forall|t: Seq<u8>, w: u64|
                #![trigger final(self).locked(t, w)]
                final(self).locked(t, w) == old(self).locked(t, w),
            r is Ok ==> forall|t: Seq<u8>|
                #![trigger final(self).total(t)]
                final(self).total(t) == old(self).total(t) + (if t == tokentype@ {
                    value as int
                } else {
                    0
                }),
    {
        if let Err(e) = self.vaild_tokentype(tokentype) {
            return Err(e);
        }
        let total = self.compute_total(tokentype);
        if total + (value as u128) > (u64::MAX as u128) {
            return Err(DexError::Overflow);
        }
        proof {
            lemma_key_le_total(self.entries@, tokentype@, dest);
            lemma_total_nonneg(self.entries@, tokentype@);
        }
        self.token_increase_or_decrease(dest, tokentype, value, TokenControl::Free, true);
        proof {
            assert forall|t: Seq<u8>| self.total(t) <= u64::MAX by {
                assert(old(self).total(t) <= u64::MAX);
            }
        }
        Ok(())
    }

    /// Destroy `value` units of `tokentype` from the free balance of `dest`.
    /// Succeeds exactly when the asset is registered and the free balance
    /// covers the amount.
    pub fn burn(&mut self, dest: u64, tokentype: &Vec<u8>, value: u64) -> (r: Result<(), DexError>)
        requires
            old(self).wf(),
        ensures
            final(self).wf(),
            final(self).types@ == old(self).types@,
            r is Ok <==> old(self).is_registered(tokentype@) && old(self).free(tokentype@, dest)
                >= value,
            r is Err ==> *final(self) == *old(self),
            !old(self).is_registered(tokentype@) ==> r == Result::<(), DexError>::Err(
                DexError::UnknownAsset,
            ),
            old(self).is_registered(tokentype@) && old(self).free(tokentype@, dest) < value ==> r
                == Result::<(), DexError>::Err(DexError::InsufficientFree),
            r is Ok ==> forall|t: Seq<u8>, w: u64|
                #![trigger final(self).free(t, w)]
                final(self).free(t, w) as int == old(self).free(t, w) - (if t == tokentype@ && w
                    == dest {
                    value as int
                } else {
                    0
                }),
            r is Ok ==> forall|t: Seq<u8>, w: u64|
                #![trigger final(self).locked(t, w)]
                final(self).locked(t, w) == old(self).locked(t, w),
            r is Ok ==> forall|t: Seq<u8>|
                #![trigger final(self).total(t)]
                final(self).total(t) == old(self).total(t) - (if t == tokentype@ {
                    value as int
                } else {
                    0
                }),
    {
        if let Err(e) = self.vaild_tokentype(tokentype) {
            return Err(e);
        }
        if self.amount_free(dest, tokentype) < value {
            return Err(DexError::InsufficientFree);
        }
        proof {
            lemma_total_nonneg(self.entries@, tokentype@);
        }
        self.token_increase_or_decrease(dest, tokentype, value, TokenControl::Free, false);
        proof {
            assert forall|t: Seq<u8>| self.total(t) <= u64::MAX by {
                assert(old(self).total(t) <= u64::MAX);
            }
        }
        Ok(())
    }

    /// Move `value` from the free to the locked partition of one balance.
    /// Succeeds exactly when the asset is registered and the free balance
    /// covers the amount.
    pub fn lock(&mut self, who: u64, tokentype: &Vec<u8>, value: u64) -> (r: Result<(), DexError>)
        requires
            old(self).wf(),
        ensures
            final(self).wf(),
            final(self).types@ == old(self).types@,
            r is Ok <==> old(self).is_registered(tokentype@) && old(self).free(tokentype@, who)
                >= value,
            r is Err ==> *final(self) == *old(self),
            !old(self).is_registered(tokentype@) ==> r == Result::<(), DexError>::Err(
                DexError::UnknownAsset,
            ),
            old(self).is_registered(tokentype@) && old(self).free(tokentype@, who) < value ==> r
                == Result::<(), DexError>::Err(DexError::InsufficientFree),
            r is Ok ==> forall|t: Seq<u8>, w: u64|
                #![trigger final(self).free(t, w)]
                final(self).free(t, w) as int == old(self).free(t, w) - (if t == tokentype@ && w
                    == who {
                    value as int
                } else {
                    0
                }),
            r is Ok ==> forall|t: Seq<u8>, w: u64|
                #![trigger final(self).locked(t, w)]
                final(self).locked(t, w) as int == old(self).locked(t, w) + (if t == tokentype@ && w
                    == who {
                    value as int
                } else {
                    0
                }),
            forall|t: Seq<u8>|
                #![trigger final(self).total(t)]
                final(self).total(t) == old(self).total(t),
    {
        if let Err(e) = self.vaild_tokentype(tokentype) {
            return Err(e);
        }
        if self.amount_free(who, tokentype) < value {
            return Err(DexError::InsufficientFree);
        }
        proof {
            lemma_key_le_total(self.entries@, tokentype@, who);
            lemma_total_nonneg(self.entries@, tokentype@);
            assert(self.total(tokentype@) <= u64::MAX);
        }
        self.token_increase_or_decrease(who, tokentype, value, TokenControl::Free, false);
        self.token_increase_or_decrease(who, tokentype, value, TokenControl::Lock, true);
        Ok(())
    }

    /// Move `value` from the locked back to the free partition of one
    /// balance. Succeeds exactly when the asset is registered and the locked
    /// balance covers the amount.
    pub fn unlock(&mut self, who: u64, tokentype: &Vec<u8>, value: u64) -> (r: Result<
        (),
        DexError,
    >)
        requires
            old(self).wf(),
        ensures
            final(self).wf(),
            final(self).types@ == old(self).types@,
            r is Ok <==> old(self).is_registered(tokentype@) && old(self).locked(tokentype@, who)
                >= value,
            r is Err ==> *final(self) == *old(self),
            !old(self).is_registered(tokentype@) ==> r == Result::<(), DexError>::Err(
                DexError::UnknownAsset,
            ),
            old(self).is_registered(tokentype@) && old(self).locked(tokentype@, who) < value ==> r
                == Result::<(), DexError>::Err(DexError::InsufficientLocked),
            r is Ok ==> forall|t: Seq<u8>, w: u64|
                #![trigger final(self).free(t, w)]
                final(self).free(t, w) as int == old(self).free(t, w) + (if t == tokentype@ && w
                    == who {
                    value as int
                } else {
                    0
                }),
            r is Ok ==> forall|t: Seq<u8>, w: u64|
                #![trigger final(self).locked(t, w)]
                final(self).locked(t, w) as int == old(self).locked(t, w) - (if t == tokentype@ && w
                    == who {
                    value as int
                } else {
                    0
                }),
            forall|t: Seq<u8>|
                #![trigger final(self).total(t)]
                final(self).total(t) == old(self).total(t),
    {
        if let Err(e) = self.vaild_tokentype(tokentype) {
            return Err(e);
        }
        if self.amount_lock(who, tokentype) < value {
            return Err(DexError::InsufficientLocked);
        }
        proof {
            lemma_key_le_total(self.entries@, tokentype@, who);
            lemma_total_nonneg(self.entries@, tokentype@);
            assert(self.total(tokentype@) <= u64::MAX);
        }
        self.token_increase_or_decrease(who, tokentype, value, TokenControl::Lock, false);
        self.token_increase_or_decrease(who, tokentype, value, TokenControl::Free, true);
        Ok(())
    }

    /// Move `value` between the free balances of two accounts. Succeeds
    /// exactly when the asset is registered and the source's free balance
    /// covers the amount; a transfer to oneself changes nothing.
    pub fn transfer(&mut self, source: u64, dest: u64, tokentype: &Vec<u8>, value: u64) -> (r:
        Result<(), DexError>)
        requires
            old(self).wf(),
        ensures
            final(self).wf(),
            final(self).types@ == old(self).types@,
            r is Ok <==> old(self).is_registered(tokentype@) && old(self).free(tokentype@, source)
                >= value,
            r is Err ==> *final(self) == *old(self),
            !old(self).is_registered(tokentype@) ==> r == Result::<(), DexError>::Err(
                DexError::UnknownAsset,
            ),
            old(self).is_registered(tokentype@) && old(self).free(tokentype@, source) < value ==> r
                == Result::<(), DexError>::Err(DexError::InsufficientFree),
            r is Ok ==> forall|t: Seq<u8>, w: u64|
                #![trigger final(self).free(t, w)]
                final(self).free(t, w) as int == old(self).free(t, w) + (if t == tokentype@ {
                    (if w == dest {
                        value as int
                    } else {
                        0
                    }) - (if w == source {
                        value as int
                    } else {
                        0
                    })
                } else {
                    0
                }),
            r is Ok ==> forall|t: Seq<u8>, w: u64|
                #![trigger final(self).locked(t, w)]
                final(self).locked(t, w) == old(self).locked(t, w),
            forall|t: Seq<u8>|
                #![trigger final(self).total(t)]
                final(self).total(t) == old(self).total(t),
    {
        if let Err(e) = self.vaild_tokentype(tokentype) {
            return Err(e);
        }
        if self.amount_free(source, tokentype) < value {
            return Err(DexError::InsufficientFree);
        }
        proof {
            if source != dest {
                lemma_two_keys_le_total(self.entries@, tokentype@, source, dest);
            } else {
                lemma_key_le_total(self.entries@, tokentype@, source);
            }
            lemma_total_nonneg(self.entries@, tokentype@);
            assert(self.total(tokentype@) <= u64::MAX);
        }
        self.token_increase_or_decrease(source, tokentype, value, TokenControl::Free, false);
        self.token_increase_or_decrease(dest, tokentype, value, TokenControl::Free, true);
        Ok(())
    }

    /// Settle one fill of `amount` base units at the clearing price `price`.
    /// The buyer had locked quote at `lock_price >= price`: the difference
    /// `amount * (lock_price - price)` returns to the buyer's free quote, the
    /// payment `amount * price` moves from the buyer's locked quote to the
    /// seller's free quote, and `amount` of base moves from the seller's
    /// locked balance to the buyer's free balance. The matcher guarantees the
    /// locked balances cover what is taken; no asset's total supply changes.
    pub fn exchange_token(
        &mut self,
        seller: u64,
        buyer: u64,
        tokentype_share: &Vec<u8>,
        tokentype_money: &Vec<u8>,
        amount: u64,
        price: u64,
        lock_price: u64,
    )
        requires
            old(self).wf(),
            price <= lock_price,
            amount * lock_price <= u64::MAX,
            old(self).locked(tokentype_money@, buyer) >= amount * lock_price + (
            if tokentype_money@ == tokentype_share@ && buyer == seller {
                amount as int
            } else {
                0
            }),
            old(self).locked(tokentype_share@, seller) >= amount + (
            if tokentype_money@ == tokentype_share@ && buyer == seller {
                amount * lock_price
            } else {
                0
            }),
        ensures
            final(self).wf(),
            final(self).types@ == old(self).types@,
            forall|t: Seq<u8>, w: u64|
                #![trigger final(self).locked(t, w)]
                final(self).locked(t, w) as int == old(self).locked(t, w) - (if t
                    == tokentype_money@ && w == buyer {
                    amount * lock_price
                } else {
                    0
                }) - (if t == tokentype_share@ && w == seller {
                    amount as int
                } else {
                    0
                }),
            forall|t: Seq<u8>, w: u64|
                #![trigger final(self).free(t, w)]
                final(self).free(t, w) as int == old(self).free(t, w) + (if t == tokentype_money@
                    && w == buyer {
                    amount * (lock_price - price)
                } else {
                    0
                }) + (if t == tokentype_money@ && w == seller {
                    amount * price
                } else {
                    0
                }) + (if t == tokentype_share@ && w == buyer {
                    amount as int
                } else {
                    0
                }),
            forall|t: Seq<u8>|
                #![trigger final(self).total(t)]
                final(self).total(t) == old(self).total(t),
    {
        proof {
            vstd::arithmetic::mul::lemma_mul_inequality(
                (lock_price - price) as int,
                lock_price as int,
                amount as int,
            );
            vstd::arithmetic::mul::lemma_mul_inequality(price as int, lock_price as int, amount as int);
            vstd::arithmetic::mul::lemma_mul_is_distributive_sub(
                amount as int,
                lock_price as int,
                price as int,
            );
            vstd::arithmetic::mul::lemma_mul_nonnegative(amount as int, price as int);
            vstd::arithmetic::mul::lemma_mul_nonnegative(amount as int, (lock_price - price) as int);
            assert(old(self).total(tokentype_money@) <= u64::MAX);
            assert(old(self).total(tokentype_share@) <= u64::MAX);
            lemma_total_nonneg(self.entries@, tokentype_money@);
            lemma_total_nonneg(self.entries@, tokentype_share@);
        }
        let mut extra_lock_to_free: u64 = 0;
        if lock_price > price {
            extra_lock_to_free = amount * (lock_price - price);
        }
        let money: u64 = amount * price;
        let ghost t_money = tokentype_money@;
        let ghost t_share = tokentype_share@;
        // refund of the over-reserved quote: locked -> free for the buyer
        self.token_increase_or_decrease(
            buyer,
            tokentype_money,
            extra_lock_to_free,
            TokenControl::Lock,
            false,
        );
        proof {
            lemma_key_le_total(self.entries@, t_money, buyer);
            assert(self.total(t_money) == old(self).total(t_money) - extra_lock_to_free);
            assert(self.free(t_money, buyer) + extra_lock_to_free <= u64::MAX);
        }
        self.token_increase_or_decrease(
            buyer,
            tokentype_money,
            extra_lock_to_free,
            TokenControl::Free,
            true,
        );
        // the payment: buyer's locked quote -> seller's free quote
        self.token_increase_or_decrease(buyer, tokentype_money, money, TokenControl::Lock, false);
        proof {
            lemma_key_le_total(self.entries@, t_money, seller);
            assert(self.total(t_money) == old(self).total(t_money) - money);
            assert(self.free(t_money, seller) + money <= u64::MAX);
        }
        self.token_increase_or_decrease(seller, tokentype_money, money, TokenControl::Free, true);
        // the goods: seller's locked base -> buyer's free base
        self.token_increase_or_decrease(seller, tokentype_share, amount, TokenControl::Lock, false);
        proof {
            lemma_key_le_total(self.entries@, t_share, buyer);
            assert(self.total(t_share) <= old(self).total(t_share) - amount);
            assert(self.free(t_share, buyer) + amount <= u64::MAX);
        }
        self.token_increase_or_decrease(buyer, tokentype_share, amount, TokenControl::Free, true);
        proof {
            assert forall|t: Seq<u8>| self.total(t) == old(self).total(t) by {}
            assert forall|t: Seq<u8>| self.total(t) <= u64::MAX by {
                assert(old(self).total(t) <= u64::MAX);
            }
        }
    }
}

} // verus!
