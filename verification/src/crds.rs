//! The Cluster Replication Data Store: a keyed map of signed, versioned
//! values. There is at most one entry per label; an insert replaces a prior
//! entry only when the incoming wallclock is strictly greater, or equal with
//! a greater value hash. Every stored value's signature verifies, and purge
//! drops entries whose local timestamp has aged out.

use vstd::prelude::*;
use crate::codec::{ser_value, value_wf};
use crate::crds_value::{label_of, wallclock_of, CrdsValue, CrdsValueLabel, CrdsValueV};
use crate::keys::{hash_of, hash_value, hashval_of_bytes, lemma_hashval_from_bytes, HashVal};

verus! {

/// Why an insert was refused.
#[derive(Clone, Copy, PartialEq, Eq, Structural, Debug)]
pub enum CrdsError {
    /// An entry with the same label and an equal-or-newer version is already
    /// stored.
    DuplicateOrOlder,
}

/// A stored value together with the local time this node first accepted it
/// and its cached value hash.
#[derive(Debug)]
pub struct VersionedCrdsValue {
    /// The signed value.
    pub value: CrdsValue,
    /// When this node accepted the value; distinct from the originator's
    /// wallclock, and the clock that purge runs on.
    pub local_timestamp: u64,
    /// The hash of the value's serialization, cached for tie-breaking and for
    /// pull-request filters.
    pub value_hash: HashVal,
}

/// Ghost image of a stored entry.
pub struct VersionedV {
    pub value: CrdsValueV,
    pub local_timestamp: u64,
    pub value_hash: HashVal,
}

impl View for VersionedCrdsValue {
    type V = VersionedV;

    open spec fn view(&self) -> VersionedV {
        VersionedV {
            value: self.value@,
            local_timestamp: self.local_timestamp,
            value_hash: self.value_hash,
        }
    }
}

/// The ghost images of a table of entries.
pub open spec fn views_of_entries(s: Seq<VersionedCrdsValue>) -> Seq<VersionedV> {
    s.map_values(|e: VersionedCrdsValue| e@)
}

/// The hash under which a value is stored and filtered.
pub open spec fn value_hash_of(v: CrdsValueV) -> HashVal {
    hashval_of_bytes(hash_of(ser_value(v)))
}

/// The index of the entry with the given label, or -1.
pub open spec fn find_index(s: Seq<VersionedV>, label: CrdsValueLabel) -> int
    decreases s.len(),
{
    if s.len() == 0 {
        -1
    } else if label_of(s[0].value.data) == label {
        0
    } else {
        let r = find_index(s.drop_first(), label);
        if r == -1 {
            -1
        } else {
            r + 1
        }
    }
}

/// The entry with the given label, if present.
pub open spec fn find(s: Seq<VersionedV>, label: CrdsValueLabel) -> Option<VersionedV> {
    let i = find_index(s, label);
    if i == -1 {
        None
    } else {
        Some(s[i])
    }
}

/// Whether an incoming value displaces the stored entry with its label:
/// strictly newer wallclock, or equal wallclock with a greater value hash.
pub open spec fn upserts(new: CrdsValueV, old: VersionedV) -> bool {
    ||| wallclock_of(new.data) > wallclock_of(old.value.data)
    ||| (wallclock_of(new.data) == wallclock_of(old.value.data) && value_hash_of(new).spec_gt(
        old.value_hash,
    ))
}

/// The insert policy: store under the value's label if no entry exists or
/// the incoming value displaces the stored one. Returns the new table and the
/// result (the displaced entry on replacement). Signature verification
/// happens at the protocol edge, before inbound values reach the store;
/// locally trusted records (the node's own values and operator-supplied entry
/// points) are stored as given.
pub open spec fn spec_insert(s: Seq<VersionedV>, v: CrdsValueV, now: u64) -> (
    Seq<VersionedV>,
    Result<Option<VersionedV>, CrdsError>,
) {
    let i = find_index(s, label_of(v.data));
    let e = VersionedV { value: v, local_timestamp: now, value_hash: value_hash_of(v) };
    if i == -1 {
        (s.push(e), Ok(None))
    } else if upserts(v, s[i]) {
        (s.update(i, e), Ok(Some(s[i])))
    } else {
        (s, Err(CrdsError::DuplicateOrOlder))
    }
}

/// Whether a purge keeps an entry: its local timestamp is still within the
/// timeout.
pub open spec fn purge_keeps(e: VersionedV, now: u64, timeout: u64) -> bool {
    e.local_timestamp + timeout >= now
}

/// The table after a purge: the kept entries, in order.
pub open spec fn spec_purge(s: Seq<VersionedV>, now: u64, timeout: u64) -> Seq<VersionedV>
    decreases s.len(),
{
    if s.len() == 0 {
        s
    } else {
        let rest = spec_purge(s.drop_last(), now, timeout);
        if purge_keeps(s.last(), now, timeout) {
            rest.push(s.last())
        } else {
            rest
        }
    }
}

/// The ghost image of an insert result.
pub open spec fn insert_result_view(r: Result<Option<VersionedCrdsValue>, CrdsError>) -> Result<
    Option<VersionedV>,
    CrdsError,
> {
    match r {
        Ok(None) => Ok(None),
        Ok(Some(e)) => Ok(Some(e@)),
        Err(e) => Err(e),
    }
}

/// What `find_index` returns: the first index bearing the label, or -1 when
/// no index does.
pub proof fn lemma_find_index_char(s: Seq<VersionedV>, label: CrdsValueLabel)
    ensures
        find_index(s, label) == -1 ==> forall|k: int|
            0 <= k < s.len() ==> label_of(#[trigger] s[k].value.data) != label,
        find_index(s, label) != -1 ==> {
            &&& 0 <= find_index(s, label) < s.len()
            &&& label_of(s[find_index(s, label)].value.data) == label
            &&& forall|k: int|
                0 <= k < find_index(s, label) ==> label_of(#[trigger] s[k].value.data) != label
        },
    decreases s.len(),
{
    if s.len() == 0 {
    } else if label_of(s[0].value.data) == label {
    } else {
        lemma_find_index_char(s.drop_first(), label);
        assert(forall|k: int|
            1 <= k < s.len() ==> #[trigger] s[k] == s.drop_first()[k - 1]);
    }
}

/// An entry with the label exists exactly when `find` returns one.
pub proof fn lemma_find_exists(s: Seq<VersionedV>, label: CrdsValueLabel)
    ensures
        (find(s, label) is Some) <==> exists|k: int|
            0 <= k < s.len() && label_of(#[trigger] s[k].value.data) == label,
{
    lemma_find_index_char(s, label);
    if find_index(s, label) != -1 {
        let i = find_index(s, label);
        assert(0 <= i < s.len() && label_of(s[i].value.data) == label);
    }
}

/// With unique labels, `find` returns the entry at any index bearing the
/// label.
pub proof fn lemma_find_at(s: Seq<VersionedV>, label: CrdsValueLabel, k: int)
    requires
        forall|i: int, j: int|
            0 <= i < j < s.len() ==> label_of(#[trigger] s[i].value.data) != label_of(
                #[trigger] s[j].value.data,
            ),
        0 <= k < s.len(),
        label_of(s[k].value.data) == label,
    ensures
        find_index(s, label) == k,
        find(s, label) == Some(s[k]),
{
    lemma_find_index_char(s, label);
    let i = find_index(s, label);
    if i == -1 {
        assert(label_of(s[k].value.data) != label);
        assert(false);
    }
    if i < k {
        assert(label_of(s[i].value.data) == label_of(s[k].value.data));
        assert(false);
    }
    if k < i {
        assert(label_of(s[k].value.data) != label);
        assert(false);
    }
}

/// Every purge survivor is an original entry that the purge predicate keeps,
/// and every kept original entry survives.
pub proof fn lemma_purge_members(s: Seq<VersionedV>, now: u64, timeout: u64)
    ensures
        forall|j: int|
            0 <= j < spec_purge(s, now, timeout).len() ==> (purge_keeps(
                #[trigger] spec_purge(s, now, timeout)[j],
                now,
                timeout,
            ) && exists|k: int| 0 <= k < s.len() && s[k] == spec_purge(s, now, timeout)[j]),
        forall|k: int|
            0 <= k < s.len() && purge_keeps(#[trigger] s[k], now, timeout) ==> exists|j: int|
                0 <= j < spec_purge(s, now, timeout).len() && spec_purge(s, now, timeout)[j]
                    == s[k],
    decreases s.len(),
{
    if s.len() == 0 {
    } else {
        lemma_purge_members(s.drop_last(), now, timeout);
        let rest = spec_purge(s.drop_last(), now, timeout);
        let out = spec_purge(s, now, timeout);
        assert(forall|k: int| 0 <= k < s.len() - 1 ==> #[trigger] s[k] == s.drop_last()[k]);
        assert forall|j: int| 0 <= j < out.len() implies (purge_keeps(
            #[trigger] out[j],
            now,
            timeout,
        ) && exists|k: int| 0 <= k < s.len() && s[k] == out[j]) by {
            if j < rest.len() {
                assert(out[j] == rest[j]);
                let k = choose|k: int| 0 <= k < s.drop_last().len() && s.drop_last()[k] == rest[j];
                assert(s[k] == out[j]);
            } else {
                assert(out[j] == s.last());
                assert(s[s.len() - 1] == out[j]);
            }
        };
        assert forall|k: int|
            0 <= k < s.len() && purge_keeps(#[trigger] s[k], now, timeout) implies exists|j: int|
            0 <= j < out.len() && out[j] == s[k] by {
            if k < s.len() - 1 {
                let j = choose|j: int| 0 <= j < rest.len() && rest[j] == s.drop_last()[k];
                assert(out[j] == s[k]);
            } else {
                assert(out[out.len() - 1] == s[k]);
            }
        };
    }
}

/// An insert leaves every present label present, and makes the inserted
/// value's label present.
pub proof fn lemma_insert_presence(s: Seq<VersionedV>, v: CrdsValueV, now: u64, l: CrdsValueLabel)
    requires
        find(s, l) is Some || l == label_of(v.data),
    ensures
        find(spec_insert(s, v, now).0, l) is Some,
{
    let s2 = spec_insert(s, v, now).0;
    lemma_find_index_char(s, label_of(v.data));
    lemma_find_exists(s, l);
    lemma_find_exists(s2, l);
    let i = find_index(s, label_of(v.data));
    if i == -1 {
        // Appended at the end.
        if l == label_of(v.data) {
            assert(label_of(s2[s.len() as int].value.data) == l);
        } else {
            let k = choose|k: int| 0 <= k < s.len() && label_of(#[trigger] s[k].value.data) == l;
            assert(label_of(s2[k].value.data) == l);
        }
    } else if upserts(v, s[i]) {
        // Updated in place at `i`; that slot keeps the label.
        if l == label_of(v.data) {
            assert(label_of(s2[i].value.data) == l);
        } else {
            let k = choose|k: int| 0 <= k < s.len() && label_of(#[trigger] s[k].value.data) == l;
            assert(k != i);
            assert(label_of(s2[k].value.data) == l);
        }
    } else {
        if l == label_of(v.data) {
            assert(label_of(s2[i].value.data) == l);
        }
    }
}

/// The wallclock stored under a label never goes backwards: after an insert,
/// it is at least the incoming value's wallclock and at least whatever was
/// stored before. Inductively, each label holds the greatest wallclock ever
/// observed for it.
pub proof fn lemma_insert_wallclock_max(s: Seq<VersionedV>, v: CrdsValueV, now: u64)
    ensures
        ({
            let s2 = spec_insert(s, v, now).0;
            let l = label_of(v.data);
            &&& find(s2, l) matches Some(e2) && wallclock_of(e2.value.data) >= wallclock_of(v.data)
            &&& (find(s, l) matches Some(e1) ==> wallclock_of(
                find(s2, l)->Some_0.value.data,
            ) >= wallclock_of(e1.value.data))
        }),
{
    let l = label_of(v.data);
    let s2 = spec_insert(s, v, now).0;
    lemma_find_index_char(s, l);
    lemma_find_index_char(s2, l);
    let i = find_index(s, l);
    let e = VersionedV { value: v, local_timestamp: now, value_hash: value_hash_of(v) };
    if i == -1 {
        // Appended at the end; no earlier index bears the label.
        let fi = find_index(s2, l);
        assert(label_of(s2[s.len() as int].value.data) == l);
        if fi == -1 {
            assert(false);
        }
        if fi < s.len() {
            assert(s2[fi] == s[fi]);
            assert(false);
        }
        assert(s2[fi] == e);
    } else if upserts(v, s[i]) {
        let fi = find_index(s2, l);
        assert(label_of(s2[i].value.data) == l);
        if fi == -1 {
            assert(false);
        }
        if fi < i {
            assert(s2[fi] == s[fi]);
            assert(false);
        }
        assert(fi <= i);
        assert(s2[fi] == e);
    } else {
        assert(s2 == s);
        assert(wallclock_of(s[i].value.data) >= wallclock_of(v.data));
    }
}

/// Every entry after an insert is an original entry or holds the inserted
/// value.
pub proof fn lemma_insert_members(s: Seq<VersionedV>, v: CrdsValueV, now: u64)
    ensures
        forall|j: int|
            0 <= j < spec_insert(s, v, now).0.len() ==> (exists|k: int|
                0 <= k < s.len() && #[trigger] spec_insert(s, v, now).0[j] == s[k]) || spec_insert(
                s,
                v,
                now,
            ).0[j].value == v,
{
    let s2 = spec_insert(s, v, now).0;
    lemma_find_index_char(s, label_of(v.data));
    let i = find_index(s, label_of(v.data));
    assert forall|j: int| 0 <= j < s2.len() implies (exists|k: int|
        0 <= k < s.len() && #[trigger] s2[j] == s[k]) || s2[j].value == v by {
        if i == -1 {
            if j < s.len() {
                assert(s2[j] == s[j]);
            } else {
                assert(s2[j].value == v);
            }
        } else if upserts(v, s[i]) {
            if j == i {
                assert(s2[j].value == v);
            } else {
                assert(s2[j] == s[j]);
            }
        } else {
            assert(s2[j] == s[j]);
        }
    };
}

/// The value stored under the inserted label afterwards: the incoming value,
/// or the previously stored one when the insert was refused.
pub proof fn lemma_insert_label_value(s: Seq<VersionedV>, v: CrdsValueV, now: u64)
    ensures
        ({
            let s2 = spec_insert(s, v, now).0;
            let l = label_of(v.data);
            &&& find(s2, l) is Some
            &&& (find(s, l) is None ==> find(s2, l)->Some_0.value == v)
            &&& (find(s, l) matches Some(e1) ==> (find(s2, l)->Some_0.value == v || find(
                s2,
                l,
            )->Some_0.value == e1.value))
        }),
{
    let l = label_of(v.data);
    let s2 = spec_insert(s, v, now).0;
    lemma_find_index_char(s, l);
    lemma_find_index_char(s2, l);
    let i = find_index(s, l);
    let e = VersionedV { value: v, local_timestamp: now, value_hash: value_hash_of(v) };
    if i == -1 {
        let fi = find_index(s2, l);
        assert(label_of(s2[s.len() as int].value.data) == l);
        if fi == -1 {
            assert(false);
        }
        if fi < s.len() {
            assert(s2[fi] == s[fi]);
            assert(false);
        }
        assert(s2[fi] == e);
    } else if upserts(v, s[i]) {
        let fi = find_index(s2, l);
        assert(label_of(s2[i].value.data) == l);
        if fi == -1 {
            assert(false);
        }
        if fi < i {
            assert(s2[fi] == s[fi]);
            assert(false);
        }
        assert(s2[fi] == e);
    } else {
        assert(s2 == s);
    }
}

/// After a purge at `now`, no remaining entry has a local timestamp past the
/// timeout.
pub proof fn lemma_purge_timeout(s: Seq<VersionedV>, now: u64, timeout: u64)
    ensures
        forall|j: int|
            0 <= j < spec_purge(s, now, timeout).len() ==> #[trigger] spec_purge(
                s,
                now,
                timeout,
            )[j].local_timestamp + timeout >= now,
{
    lemma_purge_members(s, now, timeout);
}

/// The store.
#[derive(Debug)]
pub struct Crds {
    table: Vec<VersionedCrdsValue>,
}

impl View for Crds {
    type V = Seq<VersionedV>;

    closed spec fn view(&self) -> Seq<VersionedV> {
        views_of_entries(self.table@)
    }
}

/// The store's internal invariant: labels are unique, every stored value
/// fits the wire format, and the cached hash is the hash of the value's
/// serialization.
pub open spec fn crds_inv(s: Seq<VersionedV>) -> bool {
    &&& forall|i: int, j: int|
        0 <= i < j < s.len() ==> label_of(#[trigger] s[i].value.data) != label_of(
            #[trigger] s[j].value.data,
        )
    &&& forall|i: int| 0 <= i < s.len() ==> value_wf(#[trigger] s[i].value)
    &&& forall|i: int| 0 <= i < s.len() ==> #[trigger] s[i].value_hash == value_hash_of(s[i].value)
}

impl Crds {
    #[verifier::type_invariant]
    spec fn type_inv(self) -> bool {
        crds_inv(self@)
    }

    /// An empty store.
    pub fn new() -> (r: Crds)
        ensures
            r@ == Seq::<VersionedV>::empty(),
    {
        let r = Crds { table: Vec::new() };
        proof {
            assert(r@ =~= Seq::<VersionedV>::empty());
        }
        r
    }

    /// The number of stored entries.
    pub fn len(&self) -> (r: usize)
        ensures
            r == self@.len(),
    {
        self.table.len()
    }

    /// Read access to the stored entries, oldest insertion first; their
    /// labels are pairwise distinct.
    pub fn entries(&self) -> (r: &Vec<VersionedCrdsValue>)
        ensures
            views_of_entries(r@) == self@,
            crds_inv(self@),
    {
        proof {
            use_type_invariant(self);
        }
        &self.table
    }

    /// Looks up the entry stored under a label.
    pub fn lookup(&self, label: &CrdsValueLabel) -> (r: Option<&VersionedCrdsValue>)
        ensures
            match r {
                Some(e) => find(self@, *label) == Some(e@) && value_wf(e@.value),
                None => find(self@, *label) is None,
            },
    {
        proof {
            use_type_invariant(self);
            lemma_find_index_char(self@, *label);
        }
        let mut i: usize = 0;
        while i < self.table.len()
            invariant
                i <= self@.len(),
                self@.len() == self.table@.len(),
                forall|k: int|
                    0 <= k < i ==> label_of(#[trigger] self@[k].value.data) != *label,
            decreases self@.len() - i,
        {
            let here = self.table[i].value.label();
            if here == *label {
                proof {
                    use_type_invariant(self);
                    lemma_find_at(self@, *label, i as int);
                }
                return Some(&self.table[i]);
            }
            i = i + 1;
        }
        proof {
            lemma_find_index_char(self@, *label);
            if find_index(self@, *label) != -1 {
                let k = find_index(self@, *label);
                assert(label_of(self@[k].value.data) != *label);
                assert(false);
            }
        }
        None
    }

    /// Inserts a value: stores it under its label if it is new or displaces
    /// the stored entry per the wallclock rule. After an insert, the
    /// wallclock stored under the label is at least the incoming one and at
    /// least any previously stored one.
    pub fn insert(&mut self, value: CrdsValue, local_timestamp: u64) -> (r: Result<
        Option<VersionedCrdsValue>,
        CrdsError,
    >)
        requires
            value_wf(value@),
        ensures
            final(self)@ == spec_insert(old(self)@, value@, local_timestamp).0,
            insert_result_view(r) == spec_insert(old(self)@, value@, local_timestamp).1,
    {
        proof {
            use_type_invariant(&*self);
            lemma_find_index_char(self@, label_of(value@.data));
        }
        let ghost s0 = self@;
        let bytes = crate::codec::serialize_value_bytes(&value);
        let vh = hash_value(&bytes);
        proof {
            lemma_hashval_from_bytes(vh, hash_of(ser_value(value@)));
        }
        let label = value.label();
        // Scan for the stored entry with this label.
        let mut i: usize = 0;
        let mut found: bool = false;
        while i < self.table.len() && !found
            invariant
                i <= self@.len(),
                self@ == s0,
                self@.len() == self.table@.len(),
                found ==> i < self@.len() && label_of(self@[i as int].value.data) == label,
                !found ==> forall|k: int|
                    0 <= k < i ==> label_of(#[trigger] self@[k].value.data) != label,
            decreases self@.len() - i + (if found { 0int } else { 1int }),
        {
            let here = self.table[i].value.label();
            if here == label {
                found = true;
            } else {
                i = i + 1;
            }
        }
        let new_entry = VersionedCrdsValue { value, local_timestamp, value_hash: vh };
        if !found {
            proof {
                use_type_invariant(&*self);
                lemma_find_index_char(s0, label);
                if find_index(s0, label) != -1 {
                    let k = find_index(s0, label);
                    assert(label_of(s0[k].value.data) != label);
                    assert(false);
                }
            }
            let mut t: Vec<VersionedCrdsValue> = Vec::new();
            proof {
                assert(views_of_entries(t@) =~= Seq::<VersionedV>::empty());
            }
            core::mem::swap(&mut t, &mut self.table);
            t.push(new_entry);
            proof {
                assert(views_of_entries(t@) =~= s0.push(new_entry@));
            }
            self.table = t;
            Ok(None)
        } else {
            proof {
                use_type_invariant(&*self);
                lemma_find_at(s0, label, i as int);
            }
            let stored = &self.table[i];
            let new_wc = new_entry.value.wallclock();
            let old_wc = stored.value.wallclock();
            let newer = new_wc > old_wc || (new_wc == old_wc && vh.is_greater_than(
                &stored.value_hash,
            ));
            if newer {
                let old_entry = VersionedCrdsValue {
                    value: stored.value.duplicate(),
                    local_timestamp: stored.local_timestamp,
                    value_hash: stored.value_hash,
                };
                proof {
                    assert(old_entry@ == s0[i as int]);
                }
                let mut t: Vec<VersionedCrdsValue> = Vec::new();
                proof {
                    assert(views_of_entries(t@) =~= Seq::<VersionedV>::empty());
                }
                core::mem::swap(&mut t, &mut self.table);
                t.set(i, new_entry);
                proof {
                    assert(views_of_entries(t@) =~= s0.update(i as int, new_entry@));
                }
                self.table = t;
                Ok(Some(old_entry))
            } else {
                Err(CrdsError::DuplicateOrOlder)
            }
        }
    }

    /// Removes every entry whose local timestamp aged past the timeout. After
    /// the purge, every remaining entry has `local_timestamp + timeout >= now`.
    #[verifier::rlimit(50)]
    pub fn purge(&mut self, now: u64, timeout: u64)
        ensures
            final(self)@ == spec_purge(old(self)@, now, timeout),
    {
        proof {
            use_type_invariant(&*self);
        }
        let ghost s0 = self@;
        let mut out: Vec<VersionedCrdsValue> = Vec::new();
        let mut i: usize = 0;
        proof {
            assert(s0.subrange(0, 0) =~= Seq::<VersionedV>::empty());
            assert(views_of_entries(out@) =~= spec_purge(s0.subrange(0, 0), now, timeout));
        }
        while i < self.table.len()
            invariant
                i <= self@.len(),
                self@ == s0,
                self@.len() == self.table@.len(),
                crds_inv(s0),
                views_of_entries(out@) == spec_purge(s0.subrange(0, i as int), now, timeout),
            decreases self@.len() - i,
        {
            let ghost pre = views_of_entries(out@);
            let e = &self.table[i];
            let e_ts = e.local_timestamp;
            let keep_this = (e_ts <= u64::MAX - timeout && e_ts + timeout >= now) || (timeout
                > u64::MAX - e_ts);
            if keep_this {
                let copy = VersionedCrdsValue {
                    value: e.value.duplicate(),
                    local_timestamp: e_ts,
                    value_hash: e.value_hash,
                };
                proof {
                    assert(copy@ == s0[i as int]);
                }
                out.push(copy);
            }
            proof {
                let cur = s0.subrange(0, i + 1);
                assert(cur.drop_last() =~= s0.subrange(0, i as int));
                assert(cur.last() == s0[i as int]);
                assert(purge_keeps(s0[i as int], now, timeout) == keep_this);
                if keep_this {
                    assert(views_of_entries(out@) =~= pre.push(s0[i as int]));
                }
            }
            i = i + 1;
        }
        proof {
            assert(s0.subrange(0, s0.len() as int) =~= s0);
            let res = spec_purge(s0, now, timeout);
            lemma_purge_members(s0, now, timeout);
            assert forall|a: int, b: int| 0 <= a < b < res.len() implies label_of(
                #[trigger] res[a].value.data,
            ) != label_of(#[trigger] res[b].value.data) by {
                // Purge keeps order, so two entries with equal labels would be
                // two original entries with equal labels.
                lemma_purge_order(s0, now, timeout, a, b);
            };
            assert forall|j: int| 0 <= j < res.len() implies value_wf(#[trigger] res[j].value)
                && res[j].value_hash == value_hash_of(res[j].value) by {
                let k = choose|k: int| 0 <= k < s0.len() && s0[k] == res[j];
            };
        }
        self.table = out;
    }
}

/// Two distinct purge survivors come from two distinct original entries.
#[verifier::rlimit(50)]
proof fn lemma_purge_order(s: Seq<VersionedV>, now: u64, timeout: u64, a: int, b: int)
    requires
        forall|i: int, j: int|
            0 <= i < j < s.len() ==> label_of(#[trigger] s[i].value.data) != label_of(
                #[trigger] s[j].value.data,
            ),
        0 <= a < b < spec_purge(s, now, timeout).len(),
    ensures
        label_of(spec_purge(s, now, timeout)[a].value.data) != label_of(
            spec_purge(s, now, timeout)[b].value.data,
        ),
    decreases s.len(),
{
    let out = spec_purge(s, now, timeout);
    let rest = spec_purge(s.drop_last(), now, timeout);
    assert(s.len() > 0);
    assert(forall|k: int| 0 <= k < s.len() - 1 ==> #[trigger] s[k] == s.drop_last()[k]);
    if purge_keeps(s.last(), now, timeout) {
        if b < rest.len() {
            lemma_purge_order(s.drop_last(), now, timeout, a, b);
        } else {
            // `b` is the last original entry; `a` survives from the prefix.
            lemma_purge_members(s.drop_last(), now, timeout);
            let k = choose|k: int|
                0 <= k < s.drop_last().len() && s.drop_last()[k] == rest[a];
            assert(label_of(s[k].value.data) != label_of(s[s.len() - 1].value.data));
        }
    } else {
        lemma_purge_order(s.drop_last(), now, timeout, a, b);
    }
}

} // verus!
