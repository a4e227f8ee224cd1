//! The crates of a registry by identifier and by name, and who owns them.

use crate::cratename::{canonical, same_crate_name};
use crate::id::CrateId;
use crate::user::{folded, same_login, User};
use vstd::prelude::*;

verus! {

/// Who owns a crate: a user or a team, by the number of its row.
#[derive(Copy, Clone, PartialEq, Eq, Structural, Debug)]
pub enum OwnerId {
    User(u32),
    Team(u32),
}

/// A crate of the registry: its identifier and its name.
pub struct CrateEntry {
    pub id: CrateId,
    pub name: String,
}

/// A user or team with the number of its row.
pub struct UserEntry {
    pub user: User,
    pub owner: OwnerId,
}

/// The crates that an owner has.
pub struct OwnerEntry {
    pub owner: OwnerId,
    pub crates: Vec<CrateId>,
}

/// The crates of a registry by identifier and by name, with their owners.
pub struct CrateMap {
    pub entries: Vec<CrateEntry>,
    pub users: Vec<UserEntry>,
    pub owners: Vec<OwnerEntry>,
}

/// The crates as pairs of identifier and name.
pub open spec fn entry_views(entries: Seq<CrateEntry>) -> Seq<(CrateId, Seq<char>)> {
    Seq::new(entries.len(), |i: int| (entries[i].id, entries[i].name@))
}

impl View for CrateMap {
    type V = Seq<(CrateId, Seq<char>)>;

    /// The crates in the order in which they came.
    open spec fn view(&self) -> Seq<(CrateId, Seq<char>)> {
        entry_views(self.entries@)
    }
}

/// No crate of `map` has the identifier `id`.
pub open spec fn id_is_free(map: Seq<(CrateId, Seq<char>)>, id: CrateId) -> bool {
    forall|i: int| 0 <= i < map.len() ==> (#[trigger] map[i]).0 != id
}

/// No crate of `map` has the name `name`, `_` taken for `-`.
pub open spec fn name_is_free(map: Seq<(CrateId, Seq<char>)>, name: Seq<char>) -> bool {
    forall|i: int| 0 <= i < map.len() ==> canonical((#[trigger] map[i]).1) != canonical(name)
}

/// The identifier that `map` has for `name`.
pub open spec fn id_of(map: Seq<(CrateId, Seq<char>)>, name: Seq<char>) -> Option<CrateId> {
    if exists|i: int| 0 <= i < map.len() && canonical((#[trigger] map[i]).1) == canonical(name) {
        let i = choose|i: int|
            0 <= i < map.len() && canonical((#[trigger] map[i]).1) == canonical(name);
        Some(map[i].0)
    } else {
        None
    }
}

/// The name that `map` has for `id`.
pub open spec fn name_of(map: Seq<(CrateId, Seq<char>)>, id: CrateId) -> Option<Seq<char>> {
    if exists|i: int| 0 <= i < map.len() && (#[trigger] map[i]).0 == id {
        let i = choose|i: int| 0 <= i < map.len() && (#[trigger] map[i]).0 == id;
        Some(map[i].1)
    } else {
        None
    }
}

/// The entry at `k` is the one that counts for the user or team `login`,
/// whatever the case of its letters: the last of that name.
pub open spec fn owner_of(users: Seq<UserEntry>, login: Seq<char>, k: int) -> bool {
    &&& 0 <= k < users.len()
    &&& folded(users[k].user.0@) == folded(login)
    &&& forall|j: int| k < j < users.len() ==> folded((#[trigger] users[j]).user.0@) != folded(login)
}

/// The entry of `owner` in the list of owners: the first for that owner.
pub open spec fn crates_of(owners: Seq<OwnerEntry>, owner: OwnerId, k: int) -> bool {
    &&& 0 <= k < owners.len()
    &&& owners[k].owner == owner
    &&& forall|j: int| 0 <= j < k ==> (#[trigger] owners[j]).owner != owner
}

impl CrateMap {
    /// Each identifier and each name, `_` taken for `-`, stands once.
    pub open spec fn wf(&self) -> bool {
        &&& forall|i: int, j: int|
            0 <= i < j < self@.len() ==> (#[trigger] self@[i]).0 != (#[trigger] self@[j]).0
        &&& forall|i: int, j: int|
            0 <= i < j < self@.len() ==> canonical((#[trigger] self@[i]).1) != canonical(
                (#[trigger] self@[j]).1,
            )
    }

    pub fn new() -> (map: CrateMap)
        ensures
            map.wf(),
            map@.len() == 0,
            map.users@.len() == 0,
            map.owners@.len() == 0,
    {
        CrateMap { entries: Vec::new(), users: Vec::new(), owners: Vec::new() }
    }

    /// Whether a crate has the identifier `id`.
    pub fn has_id(&self, id: CrateId) -> (b: bool)
        ensures
            b == !id_is_free(self@, id),
    {
        let n = self.entries.len();
        let mut i: usize = 0;
        while i < n
            invariant
                n == self.entries@.len(),
                i <= n,
                forall|k: int| 0 <= k < i ==> (#[trigger] self@[k]).0 != id,
            decreases n - i,
        {
            if self.entries[i].id.0 == id.0 {
                assert(self@[i as int].0 == id);
                return true;
            }
            i += 1;
        }
        false
    }

    /// Enters a crate whose identifier and name are both new.
    pub fn insert(&mut self, id: CrateId, name: String)
        requires
            old(self).wf(),
            id_is_free(old(self)@, id),
            name_is_free(old(self)@, name@),
        ensures
            final(self).wf(),
            final(self)@ == old(self)@.push((id, name@)),
            final(self).users == old(self).users,
            final(self).owners == old(self).owners,
    {
        self.entries.push(CrateEntry { id, name });
        proof {
            assert(self@ =~= old(self)@.push((id, name@)));
        }
    }

    /// The name of the crate `id`.
    pub fn name(&self, id: CrateId) -> (name: Option<&str>)
        requires
            self.wf(),
        ensures
            match name {
                Some(name) => name_of(self@, id) == Some(name@),
                None => name_of(self@, id) is None,
            },
    {
        let n = self.entries.len();
        let mut i: usize = 0;
        while i < n
            invariant
                n == self.entries@.len(),
                i <= n,
                self.wf(),
                forall|k: int| 0 <= k < i ==> (#[trigger] self@[k]).0 != id,
            decreases n - i,
        {
            if self.entries[i].id.0 == id.0 {
                proof {
                    assert(self@[i as int].0 == id);
                    let c = choose|c: int| 0 <= c < self@.len() && (#[trigger] self@[c]).0 == id;
                    assert(c == i);
                }
                return Some(self.entries[i].name.as_str());
            }
            i += 1;
        }
        None
    }

    /// The identifier of the crate called `name`, `_` taken for `-`.
    pub fn id(&self, name: &str) -> (id: Option<CrateId>)
        requires
            self.wf(),
        ensures
            id == id_of(self@, name@),
    {
        let n = self.entries.len();
        let mut i: usize = 0;
        while i < n
            invariant
                n == self.entries@.len(),
                i <= n,
                self.wf(),
                forall|k: int| 0 <= k < i ==> canonical((#[trigger] self@[k]).1) != canonical(name@),
            decreases n - i,
        {
            if same_crate_name(self.entries[i].name.as_str(), name) {
                proof {
                    assert(canonical(self@[i as int].1) == canonical(name@));
                    let c = choose|c: int|
                        0 <= c < self@.len() && canonical((#[trigger] self@[c]).1) == canonical(
                            name@,
                        );
                    assert(c == i);
                }
                return Some(self.entries[i].id);
            }
            i += 1;
        }
        None
    }

    /// The number of crates.
    pub fn len(&self) -> (n: usize)
        ensures
            n == self@.len(),
    {
        self.entries.len()
    }

    /// The place of the user or team `login` among the users.
    pub fn find_user(&self, login: &str) -> (found: Option<usize>)
        ensures
            match found {
                Some(k) => owner_of(self.users@, login@, k as int),
                None => forall|j: int|
                    0 <= j < self.users@.len() ==> folded((#[trigger] self.users@[j]).user.0@)
                        != folded(login@),
            },
    {
        let n = self.users.len();
        let mut i: usize = n;
        while i > 0
            invariant
                n == self.users@.len(),
                i <= n,
                forall|j: int|
                    i <= j < n ==> folded((#[trigger] self.users@[j]).user.0@) != folded(login@),
            decreases i,
        {
            i -= 1;
            if same_login(self.users[i].user.0.as_str(), login) {
                return Some(i);
            }
        }
        None
    }

    /// The place of `owner` among the owners.
    pub fn find_owner(&self, owner: OwnerId) -> (found: Option<usize>)
        ensures
            match found {
                Some(k) => crates_of(self.owners@, owner, k as int),
                None => forall|j: int|
                    0 <= j < self.owners@.len() ==> (#[trigger] self.owners@[j]).owner != owner,
            },
    {
        let n = self.owners.len();
        let mut i: usize = 0;
        while i < n
            invariant
                n == self.owners@.len(),
                i <= n,
                forall|j: int| 0 <= j < i ==> (#[trigger] self.owners@[j]).owner != owner,
            decreases n - i,
        {
            if self.owners[i].owner == owner {
                return Some(i);
            }
            i += 1;
        }
        None
    }
}

} // verus!
