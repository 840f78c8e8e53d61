//! The keyed record store: task and user records held in insertion order,
//! with unique keys, and the store operations a request handler drives.

use vstd::prelude::*;

verus! {

/// A task record: a numeric key, a display name, and a completion flag.
pub struct Task {
    pub id: u64,
    pub name: String,
    pub completed: bool,
}

/// Mathematical model of a task: the name as a sequence of characters.
pub ghost struct TaskV {
    pub id: u64,
    pub name: Seq<char>,
    pub completed: bool,
}

impl View for Task {
    type V = TaskV;

    open spec fn view(&self) -> TaskV {
        TaskV { id: self.id, name: self.name@, completed: self.completed }
    }
}

impl Clone for Task {
    fn clone(&self) -> (r: Self)
        ensures
            r == *self,
    {
        Task { id: self.id, name: self.name.clone(), completed: self.completed }
    }
}

/// True when no two tasks in the sequence share a key.
pub open spec fn task_keys_unique(s: Seq<Task>) -> bool {
    forall|i: int, j: int| 0 <= i < j < s.len() ==> s[i].id != s[j].id
}

/// The map a task sequence denotes: key to record model, later entries winning.
pub open spec fn task_map_of(s: Seq<Task>) -> Map<u64, TaskV>
    decreases s.len(),
{
    if s.len() == 0 {
        Map::empty()
    } else {
        task_map_of(s.drop_last()).insert(s.last().id, s.last()@)
    }
}

/// A key is in the denoted map exactly when some entry carries it.
pub proof fn lemma_task_map_domain(s: Seq<Task>)
    ensures
        forall|k: u64|
            task_map_of(s).contains_key(k) <==> (exists|i: int| 0 <= i < s.len() && s[i].id == k),
    decreases s.len(),
{
    if s.len() > 0 {
        lemma_task_map_domain(s.drop_last());
        assert forall|k: u64| task_map_of(s).contains_key(k) implies (exists|i: int|
            0 <= i < s.len() && s[i].id == k) by {
            if k == s.last().id {
                assert(s[s.len() - 1].id == k);
            } else {
                assert(task_map_of(s.drop_last()).contains_key(k));
                let i = choose|i: int| 0 <= i < s.drop_last().len() && s.drop_last()[i].id == k;
                assert(s.drop_last()[i] == s[i]);
                assert(s[i].id == k);
            }
        }
        assert forall|k: u64| (exists|i: int| 0 <= i < s.len() && s[i].id == k) implies task_map_of(
            s,
        ).contains_key(k) by {
            let i = choose|i: int| 0 <= i < s.len() && s[i].id == k;
            if i < s.len() - 1 {
                assert(s.drop_last()[i] == s[i]);
                assert(s.drop_last()[i].id == k);
                assert(task_map_of(s.drop_last()).contains_key(k));
            } else {
                assert(k == s.last().id);
            }
        }
    }
}

/// With unique keys, the entry at any position is what the denoted map holds.
pub proof fn lemma_task_map_get(s: Seq<Task>, i: int)
    requires
        task_keys_unique(s),
        0 <= i < s.len(),
    ensures
        task_map_of(s).contains_key(s[i].id),
        task_map_of(s)[s[i].id] == s[i]@,
    decreases s.len(),
{
    if i < s.len() - 1 {
        lemma_task_map_get(s.drop_last(), i);
        assert(s.drop_last()[i] == s[i]);
        assert(s[i].id != s.last().id);
    }
}

/// Replacing the entry that carries a key updates the denoted map at that key.
pub proof fn lemma_task_map_update(s: Seq<Task>, i: int, t: Task)
    requires
        task_keys_unique(s),
        0 <= i < s.len(),
        s[i].id == t.id,
    ensures
        task_map_of(s.update(i, t)) == task_map_of(s).insert(t.id, t@),
    decreases s.len(),
{
    let su = s.update(i, t);
    if i == s.len() - 1 {
        assert(su.drop_last() =~= s.drop_last());
        assert(su.last() == t);
        assert(task_map_of(su) == task_map_of(s.drop_last()).insert(t.id, t@));
        assert(task_map_of(s.drop_last()).insert(t.id, t@) =~= task_map_of(s.drop_last()).insert(
            s.last().id,
            s.last()@,
        ).insert(t.id, t@));
    } else {
        assert(su.drop_last() =~= s.drop_last().update(i, t));
        assert(su.last() == s.last());
        assert forall|a: int, b: int|
            0 <= a < b < s.drop_last().len() implies s.drop_last()[a].id != s.drop_last()[b].id by {
            assert(s.drop_last()[a] == s[a] && s.drop_last()[b] == s[b]);
        }
        lemma_task_map_update(s.drop_last(), i, t);
        assert(s[i].id != s.last().id);
        assert(task_map_of(su) == task_map_of(s.drop_last()).insert(t.id, t@).insert(
            s.last().id,
            s.last()@,
        ));
        assert(task_map_of(s.drop_last()).insert(t.id, t@).insert(s.last().id, s.last()@)
            =~= task_map_of(s.drop_last()).insert(s.last().id, s.last()@).insert(t.id, t@));
    }
}

/// Removing the entry that carries a key removes that key from the denoted map.
pub proof fn lemma_task_map_remove(s: Seq<Task>, i: int)
    requires
        task_keys_unique(s),
        0 <= i < s.len(),
    ensures
        task_map_of(s.remove(i)) == task_map_of(s).remove(s[i].id),
    decreases s.len(),
{
    let k = s[i].id;
    if i == s.len() - 1 {
        assert(s.remove(i) =~= s.drop_last());
        lemma_task_map_domain(s.drop_last());
        assert forall|j: int| 0 <= j < s.drop_last().len() implies s.drop_last()[j].id != k by {
            assert(s.drop_last()[j] == s[j]);
        }
        assert(!task_map_of(s.drop_last()).contains_key(k));
        assert(task_map_of(s.drop_last()).insert(k, s.last()@).remove(k) =~= task_map_of(
            s.drop_last(),
        ));
    } else {
        assert(s.remove(i).drop_last() =~= s.drop_last().remove(i));
        assert(s.remove(i).last() == s.last());
        assert forall|a: int, b: int|
            0 <= a < b < s.drop_last().len() implies s.drop_last()[a].id != s.drop_last()[b].id by {
            assert(s.drop_last()[a] == s[a] && s.drop_last()[b] == s[b]);
        }
        assert(s.drop_last()[i] == s[i]);
        lemma_task_map_remove(s.drop_last(), i);
        assert(s[i].id != s.last().id);
        assert(task_map_of(s.remove(i)) == task_map_of(s.drop_last()).remove(k).insert(
            s.last().id,
            s.last()@,
        ));
        assert(task_map_of(s.drop_last()).remove(k).insert(s.last().id, s.last()@) =~= task_map_of(
            s.drop_last(),
        ).insert(s.last().id, s.last()@).remove(k));
    }
}

/// A user record: a numeric key and plaintext credentials.
pub struct User {
    pub id: u64,
    pub username: String,
    pub password: String,
}

/// Mathematical model of a user record.
pub ghost struct UserV {
    pub id: u64,
    pub username: Seq<char>,
    pub password: Seq<char>,
}

impl View for User {
    type V = UserV;

    open spec fn view(&self) -> UserV {
        UserV { id: self.id, username: self.username@, password: self.password@ }
    }
}

impl Clone for User {
    fn clone(&self) -> (r: Self)
        ensures
            r == *self,
    {
        User { id: self.id, username: self.username.clone(), password: self.password.clone() }
    }
}

/// True when no two users in the sequence share a key.
pub open spec fn user_keys_unique(s: Seq<User>) -> bool {
    forall|i: int, j: int| 0 <= i < j < s.len() ==> s[i].id != s[j].id
}

/// The map a user sequence denotes: key to record model, later entries winning.
pub open spec fn user_map_of(s: Seq<User>) -> Map<u64, UserV>
    decreases s.len(),
{
    if s.len() == 0 {
        Map::empty()
    } else {
        user_map_of(s.drop_last()).insert(s.last().id, s.last()@)
    }
}

/// A key is in the denoted user map exactly when some entry carries it.
pub proof fn lemma_user_map_domain(s: Seq<User>)
    ensures
        forall|k: u64|
            user_map_of(s).contains_key(k) <==> (exists|i: int| 0 <= i < s.len() && s[i].id == k),
    decreases s.len(),
{
    if s.len() > 0 {
        lemma_user_map_domain(s.drop_last());
        assert forall|k: u64| user_map_of(s).contains_key(k) implies (exists|i: int|
            0 <= i < s.len() && s[i].id == k) by {
            if k == s.last().id {
                assert(s[s.len() - 1].id == k);
            } else {
                assert(user_map_of(s.drop_last()).contains_key(k));
                let i = choose|i: int| 0 <= i < s.drop_last().len() && s.drop_last()[i].id == k;
                assert(s.drop_last()[i] == s[i]);
                assert(s[i].id == k);
            }
        }
        assert forall|k: u64| (exists|i: int| 0 <= i < s.len() && s[i].id == k) implies user_map_of(
            s,
        ).contains_key(k) by {
            let i = choose|i: int| 0 <= i < s.len() && s[i].id == k;
            if i < s.len() - 1 {
                assert(s.drop_last()[i] == s[i]);
                assert(s.drop_last()[i].id == k);
                assert(user_map_of(s.drop_last()).contains_key(k));
            } else {
                assert(k == s.last().id);
            }
        }
    }
}

/// With unique keys, the entry at any position is what the denoted map holds.
pub proof fn lemma_user_map_get(s: Seq<User>, i: int)
    requires
        user_keys_unique(s),
        0 <= i < s.len(),
    ensures
        user_map_of(s).contains_key(s[i].id),
        user_map_of(s)[s[i].id] == s[i]@,
    decreases s.len(),
{
    if i < s.len() - 1 {
        lemma_user_map_get(s.drop_last(), i);
        assert(s.drop_last()[i] == s[i]);
        assert(s[i].id != s.last().id);
    }
}

/// Replacing the entry that carries a key updates the denoted map at that key.
pub proof fn lemma_user_map_update(s: Seq<User>, i: int, t: User)
    requires
        user_keys_unique(s),
        0 <= i < s.len(),
        s[i].id == t.id,
    ensures
        user_map_of(s.update(i, t)) == user_map_of(s).insert(t.id, t@),
    decreases s.len(),
{
    let su = s.update(i, t);
    if i == s.len() - 1 {
        assert(su.drop_last() =~= s.drop_last());
        assert(su.last() == t);
        assert(user_map_of(su) == user_map_of(s.drop_last()).insert(t.id, t@));
        assert(user_map_of(s.drop_last()).insert(t.id, t@) =~= user_map_of(s.drop_last()).insert(
            s.last().id,
            s.last()@,
        ).insert(t.id, t@));
    } else {
        assert(su.drop_last() =~= s.drop_last().update(i, t));
        assert(su.last() == s.last());
        assert forall|a: int, b: int|
            0 <= a < b < s.drop_last().len() implies s.drop_last()[a].id != s.drop_last()[b].id by {
            assert(s.drop_last()[a] == s[a] && s.drop_last()[b] == s[b]);
        }
        lemma_user_map_update(s.drop_last(), i, t);
        assert(s[i].id != s.last().id);
        assert(user_map_of(su) == user_map_of(s.drop_last()).insert(t.id, t@).insert(
            s.last().id,
            s.last()@,
        ));
        assert(user_map_of(s.drop_last()).insert(t.id, t@).insert(s.last().id, s.last()@)
            =~= user_map_of(s.drop_last()).insert(s.last().id, s.last()@).insert(t.id, t@));
    }
}

/// Removing the entry that carries a key removes that key from the denoted map.
pub proof fn lemma_user_map_remove(s: Seq<User>, i: int)
    requires
        user_keys_unique(s),
        0 <= i < s.len(),
    ensures
        user_map_of(s.remove(i)) == user_map_of(s).remove(s[i].id),
    decreases s.len(),
{
    let k = s[i].id;
    if i == s.len() - 1 {
        assert(s.remove(i) =~= s.drop_last());
        lemma_user_map_domain(s.drop_last());
        assert forall|j: int| 0 <= j < s.drop_last().len() implies s.drop_last()[j].id != k by {
            assert(s.drop_last()[j] == s[j]);
        }
        assert(!user_map_of(s.drop_last()).contains_key(k));
        assert(user_map_of(s.drop_last()).insert(k, s.last()@).remove(k) =~= user_map_of(
            s.drop_last(),
        ));
    } else {
        assert(s.remove(i).drop_last() =~= s.drop_last().remove(i));
        assert(s.remove(i).last() == s.last());
        assert forall|a: int, b: int|
            0 <= a < b < s.drop_last().len() implies s.drop_last()[a].id != s.drop_last()[b].id by {
            assert(s.drop_last()[a] == s[a] && s.drop_last()[b] == s[b]);
        }
        assert(s.drop_last()[i] == s[i]);
        lemma_user_map_remove(s.drop_last(), i);
        assert(s[i].id != s.last().id);
        assert(user_map_of(s.remove(i)) == user_map_of(s.drop_last()).remove(k).insert(
            s.last().id,
            s.last()@,
        ));
        assert(user_map_of(s.drop_last()).remove(k).insert(s.last().id, s.last()@) =~= user_map_of(
            s.drop_last(),
        ).insert(s.last().id, s.last()@).remove(k));
    }
}

/// The first user in the sequence that carries the given name, if any.
pub open spec fn first_user_named(s: Seq<User>, name: Seq<char>) -> Option<User>
    decreases s.len(),
{
    if s.len() == 0 {
        None
    } else if s[0].username@ == name {
        Some(s[0])
    } else {
        first_user_named(s.drop_first(), name)
    }
}

/// Skipping entries that do not carry the name leaves the lookup unchanged.
pub proof fn lemma_first_user_skip(s: Seq<User>, name: Seq<char>, i: int)
    requires
        0 <= i <= s.len(),
        forall|j: int| 0 <= j < i ==> s[j].username@ != name,
    ensures
        first_user_named(s, name) == first_user_named(s.skip(i), name),
    decreases i,
{
    if i == 0 {
        assert(s.skip(0) =~= s);
    } else {
        assert(s.len() > 0);
        assert(s[0].username@ != name);
        assert(s.drop_first() =~= s.skip(1));
        assert(first_user_named(s, name) == first_user_named(s.skip(1), name));
        assert forall|j: int| 0 <= j < i - 1 implies s.skip(1)[j].username@ != name by {
            assert(s.skip(1)[j] == s[j + 1]);
        }
        lemma_first_user_skip(s.skip(1), name, i - 1);
        assert(s.skip(1).skip(i - 1) =~= s.skip(i));
    }
}

/// Whether the stored credentials admit this name and password pair: the
/// first user carrying the name must exist and hold exactly that password.
pub open spec fn login_ok(users: Seq<User>, name: Seq<char>, pass: Seq<char>) -> bool {
    match first_user_named(users, name) {
        Some(u) => u.password@ == pass,
        None => false,
    }
}

/// The in-memory store: every record of the service, keys unique per kind.
pub struct Database {
    pub tasks: Vec<Task>,
    pub users: Vec<User>,
}

impl Database {
    /// Keys are unique within each record kind.
    pub open spec fn wf(self) -> bool {
        task_keys_unique(self.tasks@) && user_keys_unique(self.users@)
    }

    /// The task collection as a map from key to record model.
    pub open spec fn task_map(self) -> Map<u64, TaskV> {
        task_map_of(self.tasks@)
    }

    /// The user collection as a map from key to record model.
    pub open spec fn user_map(self) -> Map<u64, UserV> {
        user_map_of(self.users@)
    }

    /// An empty store.
    pub fn new() -> (db: Database)
        ensures
            db.wf(),
            db.task_map() == Map::<u64, TaskV>::empty(),
            db.user_map() == Map::<u64, UserV>::empty(),
            db.tasks@.len() == 0,
            db.users@.len() == 0,
    {
        Database { tasks: Vec::new(), users: Vec::new() }
    }

    /// Inserts a task under its own key, overwriting any record with that key.
    pub fn insert(&mut self, task: Task)
        requires
            old(self).wf(),
        ensures
            final(self).wf(),
            final(self).task_map() == old(self).task_map().insert(task.id, task@),
            final(self).users@ == old(self).users@,
    {
        let ghost s0 = old(self).tasks@;
        let mut i: usize = 0;
        while i < self.tasks.len()
            invariant
                self.tasks@ == s0,
                s0 == old(self).tasks@,
                self.users@ == old(self).users@,
                user_keys_unique(self.users@),
                task_keys_unique(s0),
                i <= s0.len(),
                forall|j: int| 0 <= j < i ==> s0[j].id != task.id,
            decreases s0.len() - i,
        {
            if self.tasks[i].id == task.id {
                self.tasks.set(i, task);
                proof {
                    lemma_task_map_update(s0, i as int, task);
                    assert(self.tasks@ == s0.update(i as int, task));
                    assert forall|a: int, b: int|
                        0 <= a < b < self.tasks@.len() implies self.tasks@[a].id
                        != self.tasks@[b].id by {
                        assert(s0[a].id != s0[b].id);
                        assert(s0[i as int].id == task.id);
                        if a == i {
                            assert(self.tasks@[a].id == task.id && self.tasks@[b].id == s0[b].id);
                        } else if b == i {
                            assert(self.tasks@[a].id == s0[a].id && self.tasks@[b].id == task.id);
                        } else {
                            assert(self.tasks@[a].id == s0[a].id && self.tasks@[b].id == s0[b].id);
                        }
                    }
                }
                return ;
            }
            i += 1;
        }
        self.tasks.push(task);
        proof {
            assert(self.tasks@.drop_last() =~= s0);
            assert(self.tasks@.last() == task);
            assert forall|a: int, b: int|
                0 <= a < b < self.tasks@.len() implies self.tasks@[a].id != self.tasks@[b].id by {
                if b == s0.len() {
                    assert(s0[a].id != task.id);
                } else {
                    assert(s0[a].id != s0[b].id);
                }
            }
        }
    }

    /// Looks a task up by key; absent keys yield nothing, never an error.
    pub fn get(&self, id: u64) -> (r: Option<&Task>)
        requires
            self.wf(),
        ensures
            match r {
                Some(t) => self.task_map().contains_key(id) && self.task_map()[id] == t@ && t.id
                    == id,
                None => !self.task_map().contains_key(id),
            },
    {
        let mut i: usize = 0;
        while i < self.tasks.len()
            invariant
                self.wf(),
                i <= self.tasks@.len(),
                forall|j: int| 0 <= j < i ==> self.tasks@[j].id != id,
            decreases self.tasks@.len() - i,
        {
            if self.tasks[i].id == id {
                proof {
                    lemma_task_map_get(self.tasks@, i as int);
                }
                return Some(&self.tasks[i]);
            }
            i += 1;
        }
        proof {
            lemma_task_map_domain(self.tasks@);
        }
        None
    }

    /// Every task in the store, in insertion order.
    pub fn get_all(&self) -> (r: Vec<Task>)
        ensures
            r@ == self.tasks@,
    {
        let mut r: Vec<Task> = Vec::new();
        let mut i: usize = 0;
        while i < self.tasks.len()
            invariant
                i <= self.tasks@.len(),
                r@ == self.tasks@.take(i as int),
            decreases self.tasks@.len() - i,
        {
            r.push(self.tasks[i].clone());
            proof {
                assert(self.tasks@.take((i + 1) as int) =~= self.tasks@.take(i as int).push(
                    self.tasks@[i as int],
                ));
            }
            i += 1;
        }
        proof {
            assert(self.tasks@.take(self.tasks@.len() as int) =~= self.tasks@);
        }
        r
    }

    /// Removes the task under the key; removing an absent key changes nothing.
    pub fn delete(&mut self, id: u64)
        requires
            old(self).wf(),
        ensures
            final(self).wf(),
            final(self).task_map() == old(self).task_map().remove(id),
            final(self).users@ == old(self).users@,
    {
        let mut i: usize = 0;
        while i < self.tasks.len()
            invariant
                self.tasks@ == old(self).tasks@,
                self.users@ == old(self).users@,
                user_keys_unique(self.users@),
                task_keys_unique(self.tasks@),
                i <= self.tasks@.len(),
                forall|j: int| 0 <= j < i ==> self.tasks@[j].id != id,
            decreases self.tasks@.len() - i,
        {
            if self.tasks[i].id == id {
                proof {
                    lemma_task_map_remove(old(self).tasks@, i as int);
                }
                self.tasks.remove(i);
                proof {
                    let s = old(self).tasks@;
                    assert(self.tasks@ == s.remove(i as int));
                    assert forall|a: int, b: int|
                        0 <= a < b < self.tasks@.len() implies self.tasks@[a].id
                        != self.tasks@[b].id by {
                        let aa: int = if a < i { a } else { a + 1 };
                        let bb: int = if b < i { b } else { b + 1 };
                        assert(self.tasks@[a] == s[aa]);
                        assert(self.tasks@[b] == s[bb]);
                        assert(s[aa].id != s[bb].id);
                    }
                }
                return ;
            }
            i += 1;
        }
        proof {
            lemma_task_map_domain(self.tasks@);
            assert(!task_map_of(self.tasks@).contains_key(id));
            assert(task_map_of(self.tasks@).remove(id) =~= task_map_of(self.tasks@));
        }
    }

    /// Full replacement of the record under the key; insert and update are
    /// one operation, so an absent key is simply created.
    pub fn update(&mut self, id: u64, task: Task)
        requires
            old(self).wf(),
            task.id == id,
        ensures
            final(self).wf(),
            final(self).task_map() == old(self).task_map().insert(id, task@),
            final(self).users@ == old(self).users@,
    {
        self.insert(task);
    }

    /// Inserts a user under its own key, overwriting any record with that key.
    pub fn insert_user(&mut self, user: User)
        requires
            old(self).wf(),
        ensures
            final(self).wf(),
            final(self).user_map() == old(self).user_map().insert(user.id, user@),
            final(self).tasks@ == old(self).tasks@,
    {
        let ghost s0 = old(self).users@;
        let mut i: usize = 0;
        while i < self.users.len()
            invariant
                self.users@ == s0,
                s0 == old(self).users@,
                self.tasks@ == old(self).tasks@,
                task_keys_unique(self.tasks@),
                user_keys_unique(s0),
                i <= s0.len(),
                forall|j: int| 0 <= j < i ==> s0[j].id != user.id,
            decreases s0.len() - i,
        {
            if self.users[i].id == user.id {
                self.users.set(i, user);
                proof {
                    lemma_user_map_update(s0, i as int, user);
                    assert(self.users@ == s0.update(i as int, user));
                    assert forall|a: int, b: int|
                        0 <= a < b < self.users@.len() implies self.users@[a].id
                        != self.users@[b].id by {
                        assert(s0[a].id != s0[b].id);
                        assert(s0[i as int].id == user.id);
                        if a == i {
                            assert(self.users@[a].id == user.id && self.users@[b].id == s0[b].id);
                        } else if b == i {
                            assert(self.users@[a].id == s0[a].id && self.users@[b].id == user.id);
                        } else {
                            assert(self.users@[a].id == s0[a].id && self.users@[b].id == s0[b].id);
                        }
                    }
                }
                return ;
            }
            i += 1;
        }
        self.users.push(user);
        proof {
            assert(self.users@.drop_last() =~= s0);
            assert(self.users@.last() == user);
            assert forall|a: int, b: int|
                0 <= a < b < self.users@.len() implies self.users@[a].id != self.users@[b].id by {
                if b == s0.len() {
                    assert(s0[a].id != user.id);
                } else {
                    assert(s0[a].id != s0[b].id);
                }
            }
        }
    }

    /// Finds the first stored user carrying the given name, by linear scan.
    pub fn get_user_by_name(&self, username: &String) -> (r: Option<&User>)
        ensures
            match r {
                Some(u) => first_user_named(self.users@, username@) == Some(*u),
                None => first_user_named(self.users@, username@) is None,
            },
    {
        let mut i: usize = 0;
        while i < self.users.len()
            invariant
                i <= self.users@.len(),
                forall|j: int| 0 <= j < i ==> self.users@[j].username@ != username@,
            decreases self.users@.len() - i,
        {
            if self.users[i].username == *username {
                proof {
                    lemma_first_user_skip(self.users@, username@, i as int);
                    assert(self.users@.skip(i as int)[0] == self.users@[i as int]);
                }
                return Some(&self.users[i]);
            }
            i += 1;
        }
        proof {
            lemma_first_user_skip(self.users@, username@, self.users@.len() as int);
        }
        None
    }

    /// Looks a user up by key.
    pub fn get_user_by_id(&self, id: u64) -> (r: Option<&User>)
        requires
            self.wf(),
        ensures
            match r {
                Some(u) => self.user_map().contains_key(id) && self.user_map()[id] == u@ && u.id
                    == id,
                None => !self.user_map().contains_key(id),
            },
    {
        let mut i: usize = 0;
        while i < self.users.len()
            invariant
                self.wf(),
                i <= self.users@.len(),
                forall|j: int| 0 <= j < i ==> self.users@[j].id != id,
            decreases self.users@.len() - i,
        {
            if self.users[i].id == id {
                proof {
                    lemma_user_map_get(self.users@, i as int);
                }
                return Some(&self.users[i]);
            }
            i += 1;
        }
        proof {
            lemma_user_map_domain(self.users@);
        }
        None
    }

    /// Removes the user under the key; removing an absent key changes nothing.
    pub fn delete_user_by_id(&mut self, id: u64)
        requires
            old(self).wf(),
        ensures
            final(self).wf(),
            final(self).user_map() == old(self).user_map().remove(id),
            final(self).tasks@ == old(self).tasks@,
    {
        let mut i: usize = 0;
        while i < self.users.len()
            invariant
                self.users@ == old(self).users@,
                self.tasks@ == old(self).tasks@,
                task_keys_unique(self.tasks@),
                user_keys_unique(self.users@),
                i <= self.users@.len(),
                forall|j: int| 0 <= j < i ==> self.users@[j].id != id,
            decreases self.users@.len() - i,
        {
            if self.users[i].id == id {
                proof {
                    lemma_user_map_remove(old(self).users@, i as int);
                }
                self.users.remove(i);
                proof {
                    let s = old(self).users@;
                    assert(self.users@ == s.remove(i as int));
                    assert forall|a: int, b: int|
                        0 <= a < b < self.users@.len() implies self.users@[a].id
                        != self.users@[b].id by {
                        let aa: int = if a < i { a } else { a + 1 };
                        let bb: int = if b < i { b } else { b + 1 };
                        assert(self.users@[a] == s[aa]);
                        assert(self.users@[b] == s[bb]);
                        assert(s[aa].id != s[bb].id);
                    }
                }
                return ;
            }
            i += 1;
        }
        proof {
            lemma_user_map_domain(self.users@);
            assert(!user_map_of(self.users@).contains_key(id));
            assert(user_map_of(self.users@).remove(id) =~= user_map_of(self.users@));
        }
    }

    /// Full replacement of the user under the key.
    pub fn update_user_by_id(&mut self, id: u64, user: User)
        requires
            old(self).wf(),
            user.id == id,
        ensures
            final(self).wf(),
            final(self).user_map() == old(self).user_map().insert(id, user@),
            final(self).tasks@ == old(self).tasks@,
    {
        self.insert_user(user);
    }

    /// The plaintext credential check behind the login endpoint: a lookup
    /// miss and a password mismatch are indistinguishable in the result.
    pub fn check_login(&self, username: &String, password: &String) -> (r: bool)
        ensures
            r == login_ok(self.users@, username@, password@),
    {
        match self.get_user_by_name(username) {
            Some(u) => u.password == *password,
            None => false,
        }
    }
}

/// The map after a whole sequence of keyed insertions, earlier to later.
pub open spec fn insert_all(m: Map<u64, TaskV>, entries: Seq<TaskV>) -> Map<u64, TaskV>
    decreases entries.len(),
{
    if entries.len() == 0 {
        m
    } else {
        insert_all(m, entries.drop_last()).insert(entries.last().id, entries.last())
    }
}

/// After inserting a record, lookup at its key yields exactly that record.
pub proof fn lemma_insert_then_get(m: Map<u64, TaskV>, t: TaskV)
    ensures
        m.insert(t.id, t).contains_key(t.id),
        m.insert(t.id, t)[t.id] == t,
{
}

/// After a delete, lookup at the key finds nothing, whether or not the key
/// was present before.
pub proof fn lemma_delete_then_get(m: Map<u64, TaskV>, k: u64)
    ensures
        !m.remove(k).contains_key(k),
{
}

/// An update after an insert at the same key leaves exactly the later
/// record, never a blend of the two.
pub proof fn lemma_update_overwrites(m: Map<u64, TaskV>, k: u64, r1: TaskV, r2: TaskV)
    requires
        r1.id == k,
        r2.id == k,
    ensures
        m.insert(k, r1).insert(k, r2)[k] == r2,
        m.insert(k, r1).insert(k, r2) == m.insert(k, r2),
{
    assert(m.insert(k, r1).insert(k, r2) =~= m.insert(k, r2));
}

/// Deleting a key twice in a row leaves the same store as deleting it once.
pub proof fn lemma_delete_idempotent(m: Map<u64, TaskV>, k: u64)
    ensures
        m.remove(k).remove(k) == m.remove(k),
{
    assert(m.remove(k).remove(k) =~= m.remove(k));
}

/// A batch of insertions under pairwise distinct keys loses none of them:
/// afterwards every key holds exactly the record inserted under it.
pub proof fn lemma_distinct_inserts_all_present(m: Map<u64, TaskV>, entries: Seq<TaskV>)
    requires
        forall|i: int, j: int| 0 <= i < j < entries.len() ==> entries[i].id != entries[j].id,
    ensures
        forall|i: int|
            0 <= i < entries.len() ==> insert_all(m, entries).contains_key(entries[i].id)
                && insert_all(m, entries)[entries[i].id] == entries[i],
    decreases entries.len(),
{
    if entries.len() > 0 {
        let pre = entries.drop_last();
        assert forall|a: int, b: int|
            0 <= a < b < pre.len() implies pre[a].id != pre[b].id by {
            assert(pre[a] == entries[a] && pre[b] == entries[b]);
        }
        lemma_distinct_inserts_all_present(m, pre);
        assert forall|i: int|
            0 <= i < entries.len() implies insert_all(m, entries).contains_key(entries[i].id)
            && insert_all(m, entries)[entries[i].id] == entries[i] by {
            if i < entries.len() - 1 {
                assert(pre[i] == entries[i]);
                assert(insert_all(m, pre).contains_key(entries[i].id));
                assert(insert_all(m, pre)[entries[i].id] == entries[i]);
                assert(entries[i].id != entries.last().id);
            }
        }
    }
}

} // verus!
