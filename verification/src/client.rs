//! One backed-up client: the set of its snapshots at a location, the
//! choice of a deduplication base, and the bookkeeping that drives cloning
//! every finished snapshot to a destination.

use vstd::prelude::*;

use crate::backup::{name_id, valid_backup_name, Backup};

verus! {

// ---------------------------------------------------------------------------
// Client configuration
// ---------------------------------------------------------------------------

/// A named client and the location its snapshots are stored at.
#[derive(Debug, Clone)]
pub struct ClientConfig {
    pub name: String,
    pub storage_url: String,
}

/// The part of `s` before its first `'='`, or all of `s`.
pub open spec fn eq_name_part(s: Seq<char>) -> Seq<char>
    decreases s.len(),
{
    if s.len() == 0 {
        s
    } else if s.first() == '=' {
        Seq::empty()
    } else {
        seq![s.first()] + eq_name_part(s.drop_first())
    }
}

/// Whether `s` holds an `'='` at all.
pub open spec fn has_eq(s: Seq<char>) -> bool {
    exists|i: int| 0 <= i < s.len() && s[i] == '='
}

/// Parse a `name=URL` client definition: the name is everything before the
/// first `'='`, the location everything after it.
pub fn parse_client_arg(input: &str) -> (r: Result<ClientConfig, String>)
    ensures
        match r {
            Ok(cfg) => {
                &&& has_eq(input@)
                &&& cfg.name@ == eq_name_part(input@)
                &&& cfg.storage_url@ == input@.skip(eq_name_part(input@).len() as int + 1)
            },
            Err(_) => !has_eq(input@),
        },
{
    let len = input.unicode_len();
    let mut j: usize = 0;
    proof {
        assert(input@.skip(0) =~= input@);
        assert(input@.subrange(0, 0) + eq_name_part(input@.skip(0)) =~= eq_name_part(input@));
    }
    while j < len && input.get_char(j) != '='
        invariant
            0 <= j <= input@.len(),
            len == input@.len(),
            eq_name_part(input@) == input@.subrange(0, j as int) + eq_name_part(
                input@.skip(j as int),
            ),
            forall|k: int| 0 <= k < j ==> input@[k] != '=',
        decreases input@.len() - j,
    {
        proof {
            let t = input@.skip(j as int);
            assert(t.first() == input@[j as int]);
            assert(t.drop_first() =~= input@.skip(j as int + 1));
            assert(eq_name_part(t) == seq![t.first()] + eq_name_part(t.drop_first()));
            assert(input@.subrange(0, j as int + 1) + eq_name_part(input@.skip(j as int + 1))
                =~= input@.subrange(0, j as int) + eq_name_part(input@.skip(j as int)));
        }
        j = j + 1;
    }
    if j == len {
        proof {
            assert(input@.skip(j as int) =~= Seq::<char>::empty());
        }
        return Err(String::from_str("client definition holds no '='"));
    }
    proof {
        assert(input@[j as int] == '=');
        assert(input@.skip(j as int).first() == '=');
        assert(eq_name_part(input@.skip(j as int)) =~= Seq::<char>::empty());
        assert(eq_name_part(input@) =~= input@.subrange(0, j as int));
    }
    let name = input.substring_char(0, j);
    let url = input.substring_char(j + 1, len);
    proof {
        assert(url@ =~= input@.skip(j as int + 1));
    }
    Ok(ClientConfig { name: String::from_str(name), storage_url: String::from_str(url) })
}

// ---------------------------------------------------------------------------
// The set of a client's snapshots
// ---------------------------------------------------------------------------

/// No two snapshots in the sequence share an identifier.
pub open spec fn unique_ids(s: Seq<Backup>) -> bool {
    forall|i: int, j: int| 0 <= i < j < s.len() ==> (#[trigger] s[i]).id != (#[trigger] s[j]).id
}

/// Some snapshot in the sequence has the given identifier.
pub open spec fn has_backup_id(s: Seq<Backup>, id: u64) -> bool {
    exists|i: int| 0 <= i < s.len() && (#[trigger] s[i]).id == id
}

/// Some snapshot in the sequence has the given identifier value.
pub open spec fn has_backup_nat_id(s: Seq<Backup>, id: nat) -> bool {
    exists|i: int| 0 <= i < s.len() && (#[trigger] s[i]).id as nat == id
}

/// The snapshot came out of discovery: it was made from one of the listed
/// directory names at the given location, with an empty checksum map.
pub open spec fn discovered_at(
    b: Backup,
    url: Seq<char>,
    names: Seq<String>,
    is_local: bool,
) -> bool {
    exists|k: int|
        0 <= k < names.len() && {
            &&& valid_backup_name((#[trigger] names[k])@)
            &&& b.wf()
            &&& b.spec_name() == names[k]@
            &&& b.spec_base_url() == url
            &&& b.spec_is_local() == is_local
            &&& b.spec_checksums() == Map::<Seq<u8>, Seq<u8>>::empty()
        }
}

/// A client and the snapshots discovered for it, at most one per
/// identifier.
#[derive(Debug)]
pub struct LocalClient {
    pub name: String,
    pub backups: Vec<Backup>,
}

impl LocalClient {
    /// A client with the given name and no snapshots yet.
    pub fn new(name: &str) -> (r: Self)
        ensures
            r.name@ == name@,
            r.backups@.len() == 0,
            unique_ids(r.backups@),
    {
        LocalClient { name: String::from_str(name), backups: Vec::new() }
    }

    /// The client's name.
    pub fn client_name(&self) -> (r: &String)
        ensures
            r@ == self.name@,
    {
        &self.name
    }

    /// The snapshots discovered so far.
    pub fn get_backups(&self) -> (r: &Vec<Backup>)
        ensures
            r == &self.backups,
    {
        &self.backups
    }

    /// The position of the snapshot with the given identifier, if any.
    pub fn find_index_by_id(&self, id: u64) -> (r: Option<usize>)
        ensures
            match r {
                Some(i) => i < self.backups@.len() && self.backups@[i as int].id == id,
                None => !has_backup_id(self.backups@, id),
            },
    {
        let mut i: usize = 0;
        while i < self.backups.len()
            invariant
                0 <= i <= self.backups@.len(),
                forall|k: int| 0 <= k < i ==> (#[trigger] self.backups@[k]).id != id,
            decreases self.backups@.len() - i,
        {
            if self.backups[i].id == id {
                return Some(i);
            }
            i = i + 1;
        }
        None
    }

    /// Record a snapshot, replacing any earlier one with the same
    /// identifier.
    pub fn insert_backup(&mut self, b: Backup)
        requires
            unique_ids(old(self).backups@),
        ensures
            final(self).name == old(self).name,
            unique_ids(final(self).backups@),
            final(self).backups@.contains(b),
            forall|id: u64|
                id != b.id ==> (#[trigger] has_backup_id(final(self).backups@, id)
                    == has_backup_id(old(self).backups@, id)),
            forall|i: int|
                0 <= i < final(self).backups@.len() ==> #[trigger] old(
                    self,
                ).backups@.contains(final(self).backups@[i]) || final(self).backups@[i] == b,
    {
        let ghost bid = b.id;
        match self.find_index_by_id(b.id) {
            Some(i) => {
                let ghost old_seq = self.backups@;
                self.backups.set(i, b);
                proof {
                    assert(self.backups@[i as int] == b);
                    assert(self.backups@.contains(b)) by {
                        assert(self.backups@[i as int] == b);
                    }
                    assert(forall|k: int|
                        0 <= k < self.backups@.len() && k != i ==> #[trigger] self.backups@[k]
                            == old_seq[k]);
                    assert(forall|k: int|
                        0 <= k < self.backups@.len() && k != i ==> old_seq.contains(
                            #[trigger] self.backups@[k],
                        ));
                    assert(old_seq[i as int].id == bid);
                    assert forall|id: u64| id != bid implies #[trigger] has_backup_id(
                        self.backups@,
                        id,
                    ) == has_backup_id(old_seq, id) by {
                        if has_backup_id(self.backups@, id) {
                            let k = choose|k: int|
                                0 <= k < self.backups@.len() && (#[trigger] self.backups@[k]).id
                                    == id;
                            assert(k != i);
                            assert(old_seq[k].id == id);
                        }
                        if has_backup_id(old_seq, id) {
                            let k = choose|k: int|
                                0 <= k < old_seq.len() && (#[trigger] old_seq[k]).id == id;
                            assert(k != i);
                            assert(self.backups@[k].id == id);
                        }
                    }
                }
            },
            None => {
                let ghost old_seq = self.backups@;
                self.backups.push(b);
                proof {
                    assert(self.backups@[self.backups@.len() - 1] == b);
                    assert(self.backups@.contains(b)) by {
                        assert(self.backups@[self.backups@.len() - 1] == b);
                    }
                    assert(forall|k: int|
                        0 <= k < old_seq.len() ==> #[trigger] self.backups@[k] == old_seq[k]);
                    assert(forall|k: int|
                        0 <= k < old_seq.len() ==> old_seq.contains(#[trigger] self.backups@[k]));
                    assert forall|id: u64| id != bid implies #[trigger] has_backup_id(
                        self.backups@,
                        id,
                    ) == has_backup_id(old_seq, id) by {
                        if has_backup_id(self.backups@, id) {
                            let k = choose|k: int|
                                0 <= k < self.backups@.len() && (#[trigger] self.backups@[k]).id
                                    == id;
                            assert(k != self.backups@.len() - 1);
                            assert(old_seq[k].id == id);
                        }
                        if has_backup_id(old_seq, id) {
                            let k = choose|k: int|
                                0 <= k < old_seq.len() && (#[trigger] old_seq[k]).id == id;
                            assert(self.backups@[k].id == id);
                        }
                    }
                }
            },
        }
    }

    /// Record a snapshot for every directory name that parses as one,
    /// skipping the rest.  `is_local` says whether the location permits
    /// mutation.
    pub fn find_backups(&mut self, url: &str, names: &Vec<String>, is_local: bool)
        requires
            unique_ids(old(self).backups@),
        ensures
            final(self).name == old(self).name,
            unique_ids(final(self).backups@),
            forall|k: int|
                0 <= k < names@.len() && valid_backup_name((#[trigger] names@[k])@)
                    ==> has_backup_nat_id(final(self).backups@, name_id(names@[k]@)),
            forall|i: int|
                0 <= i < final(self).backups@.len() ==> #[trigger] old(self).backups@.contains(
                    final(self).backups@[i],
                ) || discovered_at(final(self).backups@[i], url@, names@, is_local),
    {
        let mut k: usize = 0;
        while k < names.len()
            invariant
                0 <= k <= names@.len(),
                self.name == old(self).name,
                unique_ids(self.backups@),
                forall|l: int|
                    0 <= l < k && valid_backup_name((#[trigger] names@[l])@)
                        ==> has_backup_nat_id(self.backups@, name_id(names@[l]@)),
                forall|i: int|
                    0 <= i < self.backups@.len() ==> #[trigger] old(self).backups@.contains(
                        self.backups@[i],
                    ) || discovered_at(self.backups@[i], url@, names@, is_local),
            decreases names@.len() - k,
        {
            let ghost prev = self.backups@;
            match Backup::new(url, names[k].as_str(), is_local) {
                Ok(b) => {
                    let ghost bb = b;
                    self.insert_backup(b);
                    proof {
                        assert(discovered_at(bb, url@, names@, is_local)) by {
                            assert(valid_backup_name((names@[k as int])@));
                            assert(bb.spec_name() == names@[k as int]@);
                        }
                        assert forall|i: int| 0 <= i < self.backups@.len() implies #[trigger] old(
                            self,
                        ).backups@.contains(self.backups@[i]) || discovered_at(
                            self.backups@[i],
                            url@,
                            names@,
                            is_local,
                        ) by {
                            if self.backups@[i] != bb {
                                assert(prev.contains(self.backups@[i]));
                                let j = choose|j: int|
                                    0 <= j < prev.len() && prev[j] == self.backups@[i];
                                assert(old(self).backups@.contains(prev[j]) || discovered_at(
                                    prev[j],
                                    url@,
                                    names@,
                                    is_local,
                                ));
                            }
                        }
                        assert(self.backups@.contains(bb));
                        let i = choose|i: int|
                            0 <= i < self.backups@.len() && self.backups@[i] == bb;
                        assert(has_backup_nat_id(self.backups@, name_id(names@[k as int]@))) by {
                            assert((self.backups@[i]).id as nat == name_id(names@[k as int]@));
                        }
                        assert forall|l: int|
                            0 <= l < k + 1 && valid_backup_name(
                                (#[trigger] names@[l])@,
                            ) implies has_backup_nat_id(self.backups@, name_id(names@[l]@)) by {
                            if l < k {
                                let idv = choose|i2: int|
                                    0 <= i2 < prev.len() && (#[trigger] prev[i2]).id as nat
                                        == name_id(names@[l]@);
                                if prev[idv].id != bb.id {
                                    assert(has_backup_id(prev, prev[idv].id)) by {
                                        assert(prev[idv].id == prev[idv].id);
                                    }
                                    assert(has_backup_id(self.backups@, prev[idv].id));
                                    let i3 = choose|i3: int|
                                        0 <= i3 < self.backups@.len() && (#[trigger] self
                                            .backups@[i3]).id == prev[idv].id;
                                    assert((self.backups@[i3]).id as nat == name_id(names@[l]@));
                                } else {
                                    assert((self.backups@[i]).id as nat == name_id(names@[l]@));
                                }
                            }
                        }
                    }
                },
                Err(_) => {},
            }
            k = k + 1;
        }
    }

    /// The snapshot to deduplicate against when cloning `id`: the one with
    /// the greatest identifier strictly below it, if any exists.
    pub fn find_base_for(&self, id: u64) -> (r: Option<usize>)
        ensures
            match r {
                Some(i) => {
                    &&& i < self.backups@.len()
                    &&& self.backups@[i as int].id < id
                    &&& forall|j: int|
                        0 <= j < self.backups@.len() && (#[trigger] self.backups@[j]).id < id
                            ==> self.backups@[j].id <= self.backups@[i as int].id
                },
                None => forall|j: int|
                    0 <= j < self.backups@.len() ==> (#[trigger] self.backups@[j]).id >= id,
            },
    {
        let mut best: Option<usize> = None;
        let mut i: usize = 0;
        while i < self.backups.len()
            invariant
                0 <= i <= self.backups@.len(),
                match best {
                    Some(bi) => {
                        &&& bi < self.backups@.len()
                        &&& self.backups@[bi as int].id < id
                        &&& forall|j: int|
                            0 <= j < i && (#[trigger] self.backups@[j]).id < id
                                ==> self.backups@[j].id <= self.backups@[bi as int].id
                    },
                    None => forall|j: int|
                        0 <= j < i ==> (#[trigger] self.backups@[j]).id >= id,
                },
            decreases self.backups@.len() - i,
        {
            if self.backups[i].id < id {
                match best {
                    Some(bi) => {
                        if self.backups[i].id > self.backups[bi].id {
                            best = Some(i);
                        }
                    },
                    None => {
                        best = Some(i);
                    },
                }
            }
            i = i + 1;
        }
        best
    }

    /// The identifiers of destination snapshots that no longer exist at
    /// the source and should be removed.
    pub fn orphaned_backups(&self, dest: &LocalClient) -> (r: Vec<u64>)
        ensures
            forall|j: int|
                0 <= j < r@.len() ==> has_backup_id(dest.backups@, #[trigger] r@[j])
                    && !has_backup_id(self.backups@, r@[j]),
            forall|i: int|
                0 <= i < dest.backups@.len() && !has_backup_id(
                    self.backups@,
                    (#[trigger] dest.backups@[i]).id,
                ) ==> r@.contains(dest.backups@[i].id),
    {
        let mut r: Vec<u64> = Vec::new();
        let mut i: usize = 0;
        while i < dest.backups.len()
            invariant
                0 <= i <= dest.backups@.len(),
                forall|j: int|
                    0 <= j < r@.len() ==> has_backup_id(dest.backups@, #[trigger] r@[j])
                        && !has_backup_id(self.backups@, r@[j]),
                forall|l: int|
                    0 <= l < i && !has_backup_id(
                        self.backups@,
                        (#[trigger] dest.backups@[l]).id,
                    ) ==> r@.contains(dest.backups@[l].id),
            decreases dest.backups@.len() - i,
        {
            let id = dest.backups[i].id;
            match self.find_index_by_id(id) {
                Some(_) => {
                    proof {
                        assert(has_backup_id(self.backups@, id));
                    }
                },
                None => {
                    let ghost old_r = r@;
                    r.push(id);
                    proof {
                        assert(has_backup_id(dest.backups@, id)) by {
                            assert(dest.backups@[i as int].id == id);
                        }
                        assert(forall|j: int| 0 <= j < old_r.len() ==> r@[j] == old_r[j]);
                        assert(r@[r@.len() - 1] == id);
                        assert(forall|x: u64| old_r.contains(x) ==> r@.contains(x)) by {
                            assert(forall|j: int| 0 <= j < old_r.len() ==> r@[j] == old_r[j]);
                        }
                        assert(r@.contains(id)) by {
                            assert(r@[r@.len() - 1] == id);
                        }
                    }
                },
            }
            i = i + 1;
        }
        r
    }
}

} // verus!
