//! What the tracking tables hold, as read from the database: the stored checksum of each
//! migration ([`AppliedMigrations`]), the names applied to one schema ([`AppliedNames`]) and
//! what each applied migration requires ([`AppliedRow`]).
use crate::types::{Error, MigrationName, Result};
use vstd::hash_map::StringHashMap;
use vstd::hash_set::StringHashSet;
use vstd::prelude::*;
use vstd::string::*;

verus! {

// ---------------------------------------------------------------------------
// Stored checksums
// ---------------------------------------------------------------------------

/// The stored checksum of each applied migration, by name.
pub struct AppliedMigrations {
    sums: StringHashMap<[u8; 32]>,
}

impl View for AppliedMigrations {
    type V = Map<Seq<char>, Seq<u8>>;

    closed spec fn view(&self) -> Map<Seq<char>, Seq<u8>> {
        self.sums@.map_values(|sum: [u8; 32]| sum@)
    }
}

impl AppliedMigrations {
    /// No migration applied.
    pub fn new() -> (applied: AppliedMigrations)
        ensures
            applied@ == Map::<Seq<char>, Seq<u8>>::empty(),
    {
        let applied = AppliedMigrations { sums: StringHashMap::new() };
        assert(applied@ =~= Map::<Seq<char>, Seq<u8>>::empty());
        applied
    }

    /// Store the checksum of a migration, in place of one stored before.
    pub fn insert(&mut self, name: MigrationName, sum: [u8; 32])
        ensures
            final(self)@ == old(self)@.insert(name@, sum@),
    {
        self.sums.insert(name.0, sum);
        assert(self@ =~= old(self)@.insert(name@, sum@));
    }

    /// The stored checksum of a migration.
    pub fn get(&self, name: &MigrationName) -> (sum: Option<[u8; 32]>)
        ensures
            match sum {
                Some(sum) => self@.contains_key(name@) && sum@ == self@[name@],
                None => !self@.contains_key(name@),
            },
    {
        match self.sums.get(name.0.as_str()) {
            Some(sum) => Some(*sum),
            None => None,
        }
    }

    /// Whether a checksum is stored for a migration.
    pub fn contains_key(&self, name: &MigrationName) -> (r: bool)
        ensures
            r == self@.contains_key(name@),
    {
        self.sums.contains_key(name.0.as_str())
    }

    /// The number of migrations for which a checksum is stored.
    pub fn len(&self) -> (n: usize)
        ensures
            n == self@.dom().len(),
    {
        assert(self@.dom() =~= self.sums@.dom());
        self.sums.len()
    }

    /// Whether no checksum is stored.
    pub fn is_empty(&self) -> (r: bool)
        ensures
            r == (self@.dom() == Set::<Seq<char>>::empty()),
    {
        assert(self@.dom() =~= self.sums@.dom());
        let r = self.sums.is_empty();
        assert(self.sums@.is_empty() <==> self.sums@.dom() =~= Set::<Seq<char>>::empty());
        r
    }
}

// ---------------------------------------------------------------------------
// Reading stored checksums
// ---------------------------------------------------------------------------

/// A row of the canonical table: a migration's name and the bytes of its checksum.
pub struct ChecksumRow {
    pub name: String,
    pub checksum: Vec<u8>,
}

/// A checksum row as mathematical values.
pub struct ChecksumRowView {
    pub name: Seq<char>,
    pub checksum: Seq<u8>,
}

impl DeepView for ChecksumRow {
    type V = ChecksumRowView;

    open spec fn deep_view(&self) -> ChecksumRowView {
        ChecksumRowView { name: self.name@, checksum: self.checksum@ }
    }
}

/// The number of bytes of a checksum.
pub const CHECKSUM_LEN: usize = 32;

/// The position of the first row whose checksum is not 32 bytes long.
pub open spec fn first_corrupt(rows: Seq<ChecksumRowView>, i: int) -> bool {
    &&& 0 <= i < rows.len()
    &&& rows[i].checksum.len() != CHECKSUM_LEN
    &&& forall|j: int| 0 <= j < i ==> (#[trigger] rows[j]).checksum.len() == CHECKSUM_LEN
}

/// `e` is the error for the first row whose checksum is not 32 bytes long.
pub open spec fn reports_corrupt(rows: Seq<ChecksumRowView>, e: Error) -> bool {
    e matches Error::CorruptChecksum { name, len } && exists|i: int| #[trigger]
        first_corrupt(rows, i) && name@ == rows[i].name && len == rows[i].checksum.len()
}

/// The stored bytes by name; of two rows with one name the later counts.
pub open spec fn stored_bytes(rows: Seq<ChecksumRowView>) -> Map<Seq<char>, Seq<u8>>
    decreases rows.len(),
{
    if rows.len() == 0 {
        Map::empty()
    } else {
        stored_bytes(rows.drop_last()).insert(rows.last().name, rows.last().checksum)
    }
}

/// The 32 bytes of a checksum as an array.
fn checksum_array(bytes: &[u8]) -> (sum: [u8; 32])
    requires
        bytes@.len() == CHECKSUM_LEN,
    ensures
        sum@ == bytes@,
{
    let mut sum: [u8; 32] = [0u8; 32];
    let mut i: usize = 0;
    while i < 32
        invariant
            i <= 32,
            bytes@.len() == 32,
            forall|k: int| 0 <= k < i ==> sum@[k] == bytes@[k],
        decreases 32 - i,
    {
        sum[i] = bytes[i];
        i += 1;
    }
    assert(sum@ =~= bytes@);
    sum
}

/// Decode the rows of the canonical table into each migration's stored checksum. The first
/// row whose checksum is not 32 bytes long is an error.
pub fn decode_applied(rows: &[ChecksumRow]) -> (r: Result<AppliedMigrations>)
    ensures
        match r {
            Ok(applied) => {
                &&& forall|i: int|
                    0 <= i < rows@.len() ==> (#[trigger] rows.deep_view()[i]).checksum.len()
                        == CHECKSUM_LEN
                &&& applied@ == stored_bytes(rows.deep_view())
            },
            Err(e) => reports_corrupt(rows.deep_view(), e),
        },
{
    let ghost vs = rows.deep_view();
    let mut out = AppliedMigrations::new();
    let mut i: usize = 0;
    proof {
        assert(vs.take(0) =~= Seq::<ChecksumRowView>::empty());
    }
    while i < rows.len()
        invariant
            vs == rows.deep_view(),
            i <= rows@.len(),
            forall|j: int| 0 <= j < i ==> (#[trigger] vs[j]).checksum.len() == CHECKSUM_LEN,
            out@ == stored_bytes(vs.take(i as int)),
        decreases rows@.len() - i,
    {
        let row = &rows[i];
        assert(vs[i as int] == row.deep_view());
        if row.checksum.len() != CHECKSUM_LEN {
            assert(first_corrupt(vs, i as int));
            return Err(
                Error::CorruptChecksum {
                    name: MigrationName(row.name.clone()),
                    len: row.checksum.len(),
                },
            );
        }
        let sum = checksum_array(row.checksum.as_slice());
        out.insert(MigrationName(row.name.clone()), sum);
        proof {
            let longer = vs.take(i + 1);
            assert(longer.drop_last() =~= vs.take(i as int));
            assert(longer.last() == vs[i as int]);
        }
        i += 1;
    }
    assert(vs.take(vs.len() as int) =~= vs);
    Ok(out)
}

/// Every row counts: a checksum is stored for exactly the names that the rows bear, and it is
/// the one of the last row that bears the name.
pub proof fn law_every_stored_row_counts(rows: Seq<ChecksumRowView>)
    ensures
        forall|n: Seq<char>| #[trigger]
            stored_bytes(rows).contains_key(n) <==> exists|i: int|
                0 <= i < rows.len() && (#[trigger] rows[i]).name == n,
        forall|i: int|
            0 <= i < rows.len() && (forall|j: int|
                i < j < rows.len() ==> (#[trigger] rows[j]).name != rows[i].name) ==> stored_bytes(
                rows,
            )[(#[trigger] rows[i]).name] == rows[i].checksum,
    decreases rows.len(),
{
    if rows.len() > 0 {
        let front = rows.drop_last();
        let last = rows.last();
        law_every_stored_row_counts(front);
        assert forall|n: Seq<char>| #[trigger] stored_bytes(rows).contains_key(n) implies exists|
            i: int,
        | 0 <= i < rows.len() && (#[trigger] rows[i]).name == n by {
            if n == last.name {
                assert(rows[rows.len() - 1].name == n);
            } else {
                assert(stored_bytes(front).contains_key(n));
                let i = choose|i: int| 0 <= i < front.len() && (#[trigger] front[i]).name == n;
                assert(rows[i].name == n);
            }
        }
        assert forall|n: Seq<char>|
            (exists|i: int| 0 <= i < rows.len() && (#[trigger] rows[i]).name == n) implies
            #[trigger] stored_bytes(rows).contains_key(n) by {
            let i = choose|i: int| 0 <= i < rows.len() && (#[trigger] rows[i]).name == n;
            if i < front.len() {
                assert(front[i].name == n);
                assert(stored_bytes(front).contains_key(n));
            }
        }
        assert forall|i: int|
            0 <= i < rows.len() && (forall|j: int|
                i < j < rows.len() ==> (#[trigger] rows[j]).name != rows[i].name) implies
            stored_bytes(rows)[(#[trigger] rows[i]).name] == rows[i].checksum by {
            if i < front.len() {
                assert(rows[rows.len() - 1].name != rows[i].name);
                assert(front[i] == rows[i]);
                assert forall|j: int| i < j < front.len() implies (#[trigger] front[j]).name
                    != front[i].name by {
                    assert(rows[j].name != rows[i].name);
                }
            }
        }
    }
}

/// Rows are refused exactly where some checksum does not have 32 bytes; the error then gives
/// the name and the length of such a row, and every row before it has its 32 bytes.
pub proof fn law_corrupt_checksum_is_found(rows: Seq<ChecksumRowView>)
    ensures
        (exists|i: int| #[trigger] first_corrupt(rows, i)) <==> (exists|i: int|
            0 <= i < rows.len() && (#[trigger] rows[i]).checksum.len() != 32),
        forall|e: Error| #[trigger]
            reports_corrupt(rows, e) ==> exists|i: int|
                {
                    &&& 0 <= i < rows.len()
                    &&& e matches Error::CorruptChecksum { name, len }
                    &&& name@ == (#[trigger] rows[i]).name
                    &&& len == rows[i].checksum.len()
                    &&& len != 32
                    &&& forall|j: int| 0 <= j < i ==> (#[trigger] rows[j]).checksum.len() == 32
                },
    decreases rows.len(),
{
    if exists|i: int| #[trigger] first_corrupt(rows, i) {
        let i = choose|i: int| #[trigger] first_corrupt(rows, i);
        assert(rows[i].checksum.len() != 32);
    }
    if rows.len() > 0 {
        let front = rows.drop_last();
        law_corrupt_checksum_is_found(front);
        if exists|i: int| #[trigger] first_corrupt(front, i) {
            let i = choose|i: int| #[trigger] first_corrupt(front, i);
            assert forall|j: int| 0 <= j < i implies (#[trigger] rows[j]).checksum.len()
                == CHECKSUM_LEN by {
                assert(front[j] == rows[j]);
            }
            assert(first_corrupt(rows, i));
        } else if rows.last().checksum.len() != 32 {
            assert forall|j: int| 0 <= j < front.len() implies (#[trigger] rows[j]).checksum.len()
                == CHECKSUM_LEN by {
                assert(front[j] == rows[j]);
            }
            assert(first_corrupt(rows, rows.len() - 1));
        } else {
            assert forall|i: int| 0 <= i < rows.len() implies (#[trigger] rows[i]).checksum.len()
                == 32 by {
                if i < front.len() {
                    assert(front[i] == rows[i]);
                }
            }
        }
    }
    assert forall|e: Error| #[trigger] reports_corrupt(rows, e) implies exists|i: int|
        {
            &&& 0 <= i < rows.len()
            &&& e matches Error::CorruptChecksum { name, len }
            &&& name@ == (#[trigger] rows[i]).name
            &&& len == rows[i].checksum.len()
            &&& len != 32
            &&& forall|j: int| 0 <= j < i ==> (#[trigger] rows[j]).checksum.len() == 32
        } by {
        let i = choose|i: int| #[trigger]
            first_corrupt(rows, i) && (e matches Error::CorruptChecksum { name, len } && name@
                == rows[i].name && len == rows[i].checksum.len());
        assert(rows[i].checksum.len() != 32);
    }
}

// ---------------------------------------------------------------------------
// Names applied to a schema
// ---------------------------------------------------------------------------

/// The names of the migrations that are applied to one schema.
pub struct AppliedNames {
    names: StringHashSet,
}

impl View for AppliedNames {
    type V = Set<Seq<char>>;

    closed spec fn view(&self) -> Set<Seq<char>> {
        self.names@
    }
}

impl AppliedNames {
    /// No migration applied.
    pub fn new() -> (applied: AppliedNames)
        ensures
            applied@ == Set::<Seq<char>>::empty(),
    {
        AppliedNames { names: StringHashSet::new() }
    }

    /// Note that a migration is applied.
    pub fn insert(&mut self, name: MigrationName)
        ensures
            final(self)@ == old(self)@.insert(name@),
    {
        let _ = self.names.insert(name.0);
    }

    /// Whether a migration is applied.
    pub fn contains(&self, name: &MigrationName) -> (r: bool)
        ensures
            r == self@.contains(name@),
    {
        self.names.contains(name.0.as_str())
    }
}

/// The set of the names in `names`.
pub fn collect_names(names: Vec<String>) -> (applied: AppliedNames)
    ensures
        forall|n: Seq<char>| applied@.contains(n) <==> names.deep_view().contains(n),
{
    let ghost all = names.deep_view();
    let mut applied = AppliedNames::new();
    let mut i: usize = 0;
    assert(all.take(0) =~= Seq::<Seq<char>>::empty());
    while i < names.len()
        invariant
            all == names.deep_view(),
            i <= names@.len(),
            forall|n: Seq<char>| applied@.contains(n) <==> all.take(i as int).contains(n),
        decreases names@.len() - i,
    {
        let ghost before = applied@;
        applied.insert(MigrationName(names[i].clone()));
        proof {
            let longer = all.take(i + 1);
            let shorter = all.take(i as int);
            assert(longer =~= shorter.push(all[i as int]));
            assert forall|n: Seq<char>| applied@.contains(n) <==> longer.contains(n) by {
                if shorter.contains(n) {
                    let p = choose|p: int| 0 <= p < shorter.len() && shorter[p] == n;
                    assert(longer[p] == n);
                }
                assert(longer[i as int] == all[i as int]);
                if longer.contains(n) && n != all[i as int] {
                    let p = choose|p: int| 0 <= p < longer.len() && longer[p] == n;
                    assert(shorter[p] == n);
                }
            }
        }
        i += 1;
    }
    assert(all.take(all.len() as int) =~= all);
    applied
}

// ---------------------------------------------------------------------------
// What applied migrations require
// ---------------------------------------------------------------------------

/// An applied migration and what it required when it was applied.
pub struct AppliedRow {
    pub name: MigrationName,
    pub requires: Vec<MigrationName>,
}

/// An applied row as mathematical values.
pub struct AppliedRowView {
    pub name: Seq<char>,
    pub requires: Seq<Seq<char>>,
}

impl DeepView for AppliedRow {
    type V = AppliedRowView;

    open spec fn deep_view(&self) -> AppliedRowView {
        AppliedRowView { name: self.name@, requires: self.requires.deep_view() }
    }
}

/// What each applied migration requires, by name; of two rows with one name the later counts.
pub open spec fn requires_by_name(rows: Seq<AppliedRowView>) -> Map<Seq<char>, Seq<Seq<char>>>
    decreases rows.len(),
{
    if rows.len() == 0 {
        Map::empty()
    } else {
        requires_by_name(rows.drop_last()).insert(rows.last().name, rows.last().requires)
    }
}

/// Every row counts: the applied migrations are exactly those that the rows name, and each
/// requires what the last row that names it says.
pub proof fn law_every_applied_row_counts(rows: Seq<AppliedRowView>)
    ensures
        forall|n: Seq<char>| #[trigger]
            requires_by_name(rows).contains_key(n) <==> exists|i: int|
                0 <= i < rows.len() && (#[trigger] rows[i]).name == n,
        forall|i: int|
            0 <= i < rows.len() && (forall|j: int|
                i < j < rows.len() ==> (#[trigger] rows[j]).name != rows[i].name) ==> requires_by_name(
                rows,
            )[(#[trigger] rows[i]).name] == rows[i].requires,
    decreases rows.len(),
{
    if rows.len() > 0 {
        let front = rows.drop_last();
        let last = rows.last();
        law_every_applied_row_counts(front);
        assert forall|n: Seq<char>| #[trigger] requires_by_name(rows).contains_key(n) implies exists|
            i: int,
        | 0 <= i < rows.len() && (#[trigger] rows[i]).name == n by {
            if n == last.name {
                assert(rows[rows.len() - 1].name == n);
            } else {
                assert(requires_by_name(front).contains_key(n));
                let i = choose|i: int| 0 <= i < front.len() && (#[trigger] front[i]).name == n;
                assert(rows[i].name == n);
            }
        }
        assert forall|n: Seq<char>|
            (exists|i: int| 0 <= i < rows.len() && (#[trigger] rows[i]).name == n) implies
            #[trigger] requires_by_name(rows).contains_key(n) by {
            let i = choose|i: int| 0 <= i < rows.len() && (#[trigger] rows[i]).name == n;
            if i < front.len() {
                assert(front[i].name == n);
                assert(requires_by_name(front).contains_key(n));
            }
        }
        assert forall|i: int|
            0 <= i < rows.len() && (forall|j: int|
                i < j < rows.len() ==> (#[trigger] rows[j]).name != rows[i].name) implies
            requires_by_name(rows)[(#[trigger] rows[i]).name] == rows[i].requires by {
            if i < front.len() {
                assert(rows[rows.len() - 1].name != rows[i].name);
                assert(front[i] == rows[i]);
                assert forall|j: int| i < j < front.len() implies (#[trigger] front[j]).name
                    != front[i].name by {
                    assert(rows[j].name != rows[i].name);
                }
            }
        }
    }
}

/// Everything that an applied migration requires is applied.
pub open spec fn requires_are_applied(applied: Map<Seq<char>, Seq<Seq<char>>>) -> bool {
    forall|n: Seq<char>, r: Seq<char>|
        applied.contains_key(n) && #[trigger] applied[n].contains(r) ==> applied.contains_key(r)
}

} // verus!
