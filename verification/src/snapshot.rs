//! The snapshot codec: the whole record store flattened into a stream of
//! 64-bit words and read back. A caller persists the words and hands them
//! back at startup; decoding inverts encoding exactly, and a malformed
//! stream yields a fresh empty store rather than an error.
//!
//! Stream layout: the task count, then per task its key, name length, name
//! characters (one word per character) and completion flag; then the user
//! count, then per user its key and the two length-prefixed credential
//! strings. Nothing may trail the last record.

use vstd::prelude::*;
use vstd::utf8::is_scalar;
use vstd::string::StrSliceExecFns;
use crate::store::{Database, Task, TaskV, User, UserV, task_map_of, user_map_of};

verus! {

/// A task sequence at the model level.
pub open spec fn task_views(s: Seq<Task>) -> Seq<TaskV> {
    s.map_values(|t: Task| t@)
}

/// A user sequence at the model level.
pub open spec fn user_views(s: Seq<User>) -> Seq<UserV> {
    s.map_values(|u: User| u@)
}

/// The map a model task sequence denotes, later entries winning.
pub open spec fn vtask_map_of(ts: Seq<TaskV>) -> Map<u64, TaskV>
    decreases ts.len(),
{
    if ts.len() == 0 {
        Map::empty()
    } else {
        vtask_map_of(ts.drop_last()).insert(ts.last().id, ts.last())
    }
}

/// The map a model user sequence denotes, later entries winning.
pub open spec fn vuser_map_of(us: Seq<UserV>) -> Map<u64, UserV>
    decreases us.len(),
{
    if us.len() == 0 {
        Map::empty()
    } else {
        vuser_map_of(us.drop_last()).insert(us.last().id, us.last())
    }
}

/// A store's task map and the map of its model sequence are one thing.
pub proof fn lemma_task_map_views(s: Seq<Task>)
    ensures
        task_map_of(s) == vtask_map_of(task_views(s)),
    decreases s.len(),
{
    if s.len() > 0 {
        lemma_task_map_views(s.drop_last());
        assert(task_views(s).drop_last() =~= task_views(s.drop_last()));
        assert(task_views(s).last() == s.last()@);
    }
}

/// A store's user map and the map of its model sequence are one thing.
pub proof fn lemma_user_map_views(s: Seq<User>)
    ensures
        user_map_of(s) == vuser_map_of(user_views(s)),
    decreases s.len(),
{
    if s.len() > 0 {
        lemma_user_map_views(s.drop_last());
        assert(user_views(s).drop_last() =~= user_views(s.drop_last()));
        assert(user_views(s).last() == s.last()@);
    }
}

/// A string encoded one word per character.
pub open spec fn enc_chars(cs: Seq<char>) -> Seq<u64> {
    cs.map_values(|c: char| (c as u32) as u64)
}

/// One encoded task: key, name length, name characters, completion flag.
pub open spec fn enc_task(t: TaskV) -> Seq<u64> {
    seq![t.id, t.name.len() as u64] + enc_chars(t.name) + seq![
        if t.completed {
            1u64
        } else {
            0u64
        },
    ]
}

/// The encoded task sequence, in order.
pub open spec fn enc_tasks(ts: Seq<TaskV>) -> Seq<u64>
    decreases ts.len(),
{
    if ts.len() == 0 {
        Seq::empty()
    } else {
        enc_tasks(ts.drop_last()) + enc_task(ts.last())
    }
}

/// One encoded user: key, then the two length-prefixed credential strings.
pub open spec fn enc_user(u: UserV) -> Seq<u64> {
    seq![u.id, u.username.len() as u64] + enc_chars(u.username) + seq![u.password.len() as u64]
        + enc_chars(u.password)
}

/// The encoded user sequence, in order.
pub open spec fn enc_users(us: Seq<UserV>) -> Seq<u64>
    decreases us.len(),
{
    if us.len() == 0 {
        Seq::empty()
    } else {
        enc_users(us.drop_last()) + enc_user(us.last())
    }
}

/// The whole encoded store: counted tasks, then counted users.
pub open spec fn spec_encode(ts: Seq<TaskV>, us: Seq<UserV>) -> Seq<u64> {
    seq![ts.len() as u64] + enc_tasks(ts) + seq![us.len() as u64] + enc_users(us)
}

/// Whether one stream word carries a character.
pub open spec fn word_char_ok(w: u64) -> bool {
    w <= 0x10FFFF && is_scalar(w as u32)
}

/// The character a stream word carries.
pub open spec fn word_char(w: u64) -> char {
    (w as u32) as char
}

/// Reads `n` characters starting at `pos`, extending `acc`.
pub open spec fn dec_chars(s: Seq<u64>, pos: int, n: nat, acc: Seq<char>) -> Option<
    (Seq<char>, int),
>
    decreases n,
{
    if n == 0 {
        Some((acc, pos))
    } else if 0 <= pos < s.len() && word_char_ok(s[pos]) {
        dec_chars(s, pos + 1, (n - 1) as nat, acc.push(word_char(s[pos])))
    } else {
        None
    }
}

/// Reads one task starting at `pos`.
pub open spec fn dec_task(s: Seq<u64>, pos: int) -> Option<(TaskV, int)> {
    if 0 <= pos && pos + 2 <= s.len() && s[pos + 1] <= usize::MAX as u64 {
        match dec_chars(s, pos + 2, s[pos + 1] as nat, Seq::empty()) {
            Some((name, p)) => if p < s.len() && s[p] <= 1 {
                Some((TaskV { id: s[pos], name, completed: s[p] == 1 }, p + 1))
            } else {
                None
            },
            None => None,
        }
    } else {
        None
    }
}

/// Reads `n` tasks starting at `pos`, extending `acc`.
pub open spec fn dec_tasks(s: Seq<u64>, pos: int, n: nat, acc: Seq<TaskV>) -> Option<
    (Seq<TaskV>, int),
>
    decreases n,
{
    if n == 0 {
        Some((acc, pos))
    } else {
        match dec_task(s, pos) {
            Some((t, p)) => dec_tasks(s, p, (n - 1) as nat, acc.push(t)),
            None => None,
        }
    }
}

/// Reads one user starting at `pos`.
pub open spec fn dec_user(s: Seq<u64>, pos: int) -> Option<(UserV, int)> {
    if 0 <= pos && pos + 2 <= s.len() && s[pos + 1] <= usize::MAX as u64 {
        match dec_chars(s, pos + 2, s[pos + 1] as nat, Seq::empty()) {
            Some((username, p1)) => if p1 < s.len() && s[p1] <= usize::MAX as u64 {
                match dec_chars(s, p1 + 1, s[p1] as nat, Seq::empty()) {
                    Some((password, p2)) => Some((UserV { id: s[pos], username, password }, p2)),
                    None => None,
                }
            } else {
                None
            },
            None => None,
        }
    } else {
        None
    }
}

/// Reads `n` users starting at `pos`, extending `acc`.
pub open spec fn dec_users(s: Seq<u64>, pos: int, n: nat, acc: Seq<UserV>) -> Option<
    (Seq<UserV>, int),
>
    decreases n,
{
    if n == 0 {
        Some((acc, pos))
    } else {
        match dec_user(s, pos) {
            Some((u, p)) => dec_users(s, p, (n - 1) as nat, acc.push(u)),
            None => None,
        }
    }
}

/// Reads a whole stream; anything malformed, truncated or trailing yields
/// nothing.
pub open spec fn spec_decode(s: Seq<u64>) -> Option<(Seq<TaskV>, Seq<UserV>)> {
    if s.len() >= 1 && s[0] <= usize::MAX as u64 {
        match dec_tasks(s, 1, s[0] as nat, Seq::empty()) {
            Some((ts, p)) => if p < s.len() && s[p] <= usize::MAX as u64 {
                match dec_users(s, p + 1, s[p] as nat, Seq::empty()) {
                    Some((us, q)) => if q == s.len() {
                        Some((ts, us))
                    } else {
                        None
                    },
                    None => None,
                }
            } else {
                None
            },
            None => None,
        }
    } else {
        None
    }
}

/// Character decoding inverts character encoding wherever it sits in a
/// stream.
pub proof fn lemma_dec_chars_encoded(s: Seq<u64>, pos: int, cs: Seq<char>, acc: Seq<char>)
    requires
        0 <= pos,
        pos + cs.len() <= s.len(),
        s.subrange(pos, pos + cs.len()) == enc_chars(cs),
    ensures
        dec_chars(s, pos, cs.len() as nat, acc) == Some((acc + cs, pos + cs.len())),
    decreases cs.len(),
{
    if cs.len() == 0 {
        assert(acc + cs =~= acc);
    } else {
        let c = cs[0];
        assert(s.subrange(pos, pos + cs.len())[0] == s[pos]);
        assert(enc_chars(cs)[0] == (c as u32) as u64);
        assert(s[pos] == (c as u32) as u64);
        vstd::utf8::char_is_scalar(c);
        assert(is_scalar(c as u32));
        assert(c as u32 <= 0x10FFFF);
        assert(word_char_ok(s[pos]));
        assert((s[pos] as u32) == c as u32);
        vstd::utf8::char_u32_cast(c, s[pos] as u32);
        assert(word_char(s[pos]) == c);
        let cs1 = cs.drop_first();
        assert(s.subrange(pos + 1, pos + 1 + cs1.len()) =~= enc_chars(cs1)) by {
            assert forall|k: int| 0 <= k < cs1.len() implies s.subrange(
                pos + 1,
                pos + 1 + cs1.len(),
            )[k] == enc_chars(cs1)[k] by {
                assert(s.subrange(pos + 1, pos + 1 + cs1.len())[k] == s[pos + 1 + k]);
                assert(s[pos + 1 + k] == s.subrange(pos, pos + cs.len())[k + 1]);
                assert(enc_chars(cs)[k + 1] == (cs[k + 1] as u32) as u64);
                assert(cs1[k] == cs[k + 1]);
                assert(enc_chars(cs1)[k] == (cs1[k] as u32) as u64);
            }
        }
        lemma_dec_chars_encoded(s, pos + 1, cs1, acc.push(c));
        assert(acc.push(c) + cs1 =~= acc + cs);
    }
}

/// Task decoding inverts task encoding wherever it sits in a stream.
pub proof fn lemma_dec_task_encoded(s: Seq<u64>, pos: int, t: TaskV)
    requires
        0 <= pos,
        pos + enc_task(t).len() <= s.len(),
        s.subrange(pos, pos + enc_task(t).len()) == enc_task(t),
        t.name.len() <= usize::MAX,
    ensures
        dec_task(s, pos) == Some((t, pos + enc_task(t).len())),
{
    let n = t.name.len() as int;
    let e = enc_task(t);
    assert(e.len() == n + 3);
    assert(e[0] == t.id);
    assert(e[1] == t.name.len() as u64);
    assert(e[n + 2] == if t.completed {
        1u64
    } else {
        0u64
    });
    assert(s[pos] == s.subrange(pos, pos + e.len())[0]);
    assert(s[pos + 1] == s.subrange(pos, pos + e.len())[1]);
    assert(s[pos + n + 2] == s.subrange(pos, pos + e.len())[n + 2]);
    assert(s[pos + 1] as nat == t.name.len());
    assert(s.subrange(pos + 2, pos + 2 + n) =~= enc_chars(t.name)) by {
        assert forall|k: int| 0 <= k < n implies s.subrange(pos + 2, pos + 2 + n)[k] == enc_chars(
            t.name,
        )[k] by {
            assert(s.subrange(pos + 2, pos + 2 + n)[k] == s[pos + 2 + k]);
            assert(s[pos + 2 + k] == s.subrange(pos, pos + e.len())[k + 2]);
            assert(e[k + 2] == enc_chars(t.name)[k]);
        }
    }
    lemma_dec_chars_encoded(s, pos + 2, t.name, Seq::empty());
    assert(Seq::<char>::empty() + t.name =~= t.name);
    assert(dec_chars(s, pos + 2, s[pos + 1] as nat, Seq::empty()) == Some(
        (t.name, pos + 2 + n),
    ));
    assert(s[pos + n + 2] <= 1);
    assert((s[pos + n + 2] == 1) == t.completed);
}

/// User decoding inverts user encoding wherever it sits in a stream.
pub proof fn lemma_dec_user_encoded(s: Seq<u64>, pos: int, u: UserV)
    requires
        0 <= pos,
        pos + enc_user(u).len() <= s.len(),
        s.subrange(pos, pos + enc_user(u).len()) == enc_user(u),
        u.username.len() <= usize::MAX,
        u.password.len() <= usize::MAX,
    ensures
        dec_user(s, pos) == Some((u, pos + enc_user(u).len())),
{
    let n = u.username.len() as int;
    let m = u.password.len() as int;
    let e = enc_user(u);
    assert(e.len() == n + m + 3);
    assert(e[0] == u.id);
    assert(e[1] == u.username.len() as u64);
    assert(e[n + 2] == u.password.len() as u64);
    assert(s[pos] == s.subrange(pos, pos + e.len())[0]);
    assert(s[pos + 1] == s.subrange(pos, pos + e.len())[1]);
    assert(s[pos + n + 2] == s.subrange(pos, pos + e.len())[n + 2]);
    assert(s[pos + 1] as nat == u.username.len());
    assert(s[pos + n + 2] as nat == u.password.len());
    assert(s.subrange(pos + 2, pos + 2 + n) =~= enc_chars(u.username)) by {
        assert forall|k: int| 0 <= k < n implies s.subrange(pos + 2, pos + 2 + n)[k] == enc_chars(
            u.username,
        )[k] by {
            assert(s.subrange(pos + 2, pos + 2 + n)[k] == s[pos + 2 + k]);
            assert(s[pos + 2 + k] == s.subrange(pos, pos + e.len())[k + 2]);
            assert(e[k + 2] == enc_chars(u.username)[k]);
        }
    }
    lemma_dec_chars_encoded(s, pos + 2, u.username, Seq::empty());
    assert(Seq::<char>::empty() + u.username =~= u.username);
    assert(s.subrange(pos + n + 3, pos + n + 3 + m) =~= enc_chars(u.password)) by {
        assert forall|k: int| 0 <= k < m implies s.subrange(pos + n + 3, pos + n + 3 + m)[k]
            == enc_chars(u.password)[k] by {
            assert(s.subrange(pos + n + 3, pos + n + 3 + m)[k] == s[pos + n + 3 + k]);
            assert(s[pos + n + 3 + k] == s.subrange(pos, pos + e.len())[k + n + 3]);
            assert(e[k + n + 3] == enc_chars(u.password)[k]);
        }
    }
    lemma_dec_chars_encoded(s, pos + n + 3, u.password, Seq::empty());
    assert(Seq::<char>::empty() + u.password =~= u.password);
}

/// A task sequence's encoding starts with its first task's encoding.
pub proof fn lemma_enc_tasks_first(ts: Seq<TaskV>)
    requires
        ts.len() > 0,
    ensures
        enc_tasks(ts) == enc_task(ts[0]) + enc_tasks(ts.drop_first()),
    decreases ts.len(),
{
    if ts.len() == 1 {
        assert(ts.drop_last() =~= Seq::<TaskV>::empty());
        assert(ts.drop_first() =~= Seq::<TaskV>::empty());
        assert(ts.last() == ts[0]);
        assert(enc_tasks(ts) == enc_tasks(Seq::<TaskV>::empty()) + enc_task(ts[0]));
        assert(Seq::<u64>::empty() + enc_task(ts[0]) =~= enc_task(ts[0]) + Seq::<u64>::empty());
    } else {
        let d = ts.drop_last();
        lemma_enc_tasks_first(d);
        assert(d[0] == ts[0]);
        assert(ts.drop_first().drop_last() =~= d.drop_first());
        assert(ts.drop_first().last() == ts.last());
        assert(enc_tasks(ts.drop_first()) == enc_tasks(d.drop_first()) + enc_task(ts.last()));
        assert(enc_tasks(ts) == (enc_task(ts[0]) + enc_tasks(d.drop_first())) + enc_task(
            ts.last(),
        ));
        assert((enc_task(ts[0]) + enc_tasks(d.drop_first())) + enc_task(ts.last()) =~= enc_task(
            ts[0],
        ) + (enc_tasks(d.drop_first()) + enc_task(ts.last())));
    }
}

/// A user sequence's encoding starts with its first user's encoding.
pub proof fn lemma_enc_users_first(us: Seq<UserV>)
    requires
        us.len() > 0,
    ensures
        enc_users(us) == enc_user(us[0]) + enc_users(us.drop_first()),
    decreases us.len(),
{
    if us.len() == 1 {
        assert(us.drop_last() =~= Seq::<UserV>::empty());
        assert(us.drop_first() =~= Seq::<UserV>::empty());
        assert(us.last() == us[0]);
        assert(enc_users(us) == enc_users(Seq::<UserV>::empty()) + enc_user(us[0]));
        assert(Seq::<u64>::empty() + enc_user(us[0]) =~= enc_user(us[0]) + Seq::<u64>::empty());
    } else {
        let d = us.drop_last();
        lemma_enc_users_first(d);
        assert(d[0] == us[0]);
        assert(us.drop_first().drop_last() =~= d.drop_first());
        assert(us.drop_first().last() == us.last());
        assert(enc_users(us.drop_first()) == enc_users(d.drop_first()) + enc_user(us.last()));
        assert(enc_users(us) == (enc_user(us[0]) + enc_users(d.drop_first())) + enc_user(
            us.last(),
        ));
        assert((enc_user(us[0]) + enc_users(d.drop_first())) + enc_user(us.last()) =~= enc_user(
            us[0],
        ) + (enc_users(d.drop_first()) + enc_user(us.last())));
    }
}

/// Task-sequence decoding inverts task-sequence encoding.
pub proof fn lemma_dec_tasks_encoded(s: Seq<u64>, pos: int, ts: Seq<TaskV>, acc: Seq<TaskV>)
    requires
        0 <= pos,
        pos + enc_tasks(ts).len() <= s.len(),
        s.subrange(pos, pos + enc_tasks(ts).len()) == enc_tasks(ts),
        forall|i: int| 0 <= i < ts.len() ==> #[trigger] ts[i].name.len() <= usize::MAX,
    ensures
        dec_tasks(s, pos, ts.len() as nat, acc) == Some((acc + ts, pos + enc_tasks(ts).len())),
    decreases ts.len(),
{
    if ts.len() == 0 {
        assert(acc + ts =~= acc);
    } else {
        lemma_enc_tasks_first(ts);
        let e0 = enc_task(ts[0]);
        let rest = enc_tasks(ts.drop_first());
        assert(enc_tasks(ts).len() == e0.len() + rest.len());
        assert(s.subrange(pos, pos + e0.len()) =~= e0) by {
            assert forall|k: int| 0 <= k < e0.len() implies s.subrange(pos, pos + e0.len())[k]
                == e0[k] by {
                assert(s.subrange(pos, pos + e0.len())[k] == s[pos + k]);
                assert(s[pos + k] == s.subrange(pos, pos + enc_tasks(ts).len())[k]);
                assert(enc_tasks(ts)[k] == e0[k]);
            }
        }
        lemma_dec_task_encoded(s, pos, ts[0]);
        assert(s.subrange(pos + e0.len(), pos + e0.len() + rest.len()) =~= rest) by {
            assert forall|k: int| 0 <= k < rest.len() implies s.subrange(
                pos + e0.len(),
                pos + e0.len() + rest.len(),
            )[k] == rest[k] by {
                assert(s.subrange(pos + e0.len(), pos + e0.len() + rest.len())[k] == s[pos
                    + e0.len() + k]);
                assert(s[pos + e0.len() + k] == s.subrange(pos, pos + enc_tasks(ts).len())[e0.len()
                    + k]);
                assert(enc_tasks(ts)[e0.len() + k] == rest[k]);
            }
        }
        assert forall|i: int| 0 <= i < ts.drop_first().len() implies #[trigger] ts.drop_first()[i].name.len()
            <= usize::MAX by {
            assert(ts.drop_first()[i] == ts[i + 1]);
        }
        lemma_dec_tasks_encoded(s, pos + e0.len(), ts.drop_first(), acc.push(ts[0]));
        assert(acc.push(ts[0]) + ts.drop_first() =~= acc + ts);
    }
}

/// User-sequence decoding inverts user-sequence encoding.
pub proof fn lemma_dec_users_encoded(s: Seq<u64>, pos: int, us: Seq<UserV>, acc: Seq<UserV>)
    requires
        0 <= pos,
        pos + enc_users(us).len() <= s.len(),
        s.subrange(pos, pos + enc_users(us).len()) == enc_users(us),
        forall|i: int|
            0 <= i < us.len() ==> #[trigger] us[i].username.len() <= usize::MAX
                && us[i].password.len() <= usize::MAX,
    ensures
        dec_users(s, pos, us.len() as nat, acc) == Some((acc + us, pos + enc_users(us).len())),
    decreases us.len(),
{
    if us.len() == 0 {
        assert(acc + us =~= acc);
    } else {
        lemma_enc_users_first(us);
        let e0 = enc_user(us[0]);
        let rest = enc_users(us.drop_first());
        assert(enc_users(us).len() == e0.len() + rest.len());
        assert(s.subrange(pos, pos + e0.len()) =~= e0) by {
            assert forall|k: int| 0 <= k < e0.len() implies s.subrange(pos, pos + e0.len())[k]
                == e0[k] by {
                assert(s.subrange(pos, pos + e0.len())[k] == s[pos + k]);
                assert(s[pos + k] == s.subrange(pos, pos + enc_users(us).len())[k]);
                assert(enc_users(us)[k] == e0[k]);
            }
        }
        lemma_dec_user_encoded(s, pos, us[0]);
        assert(s.subrange(pos + e0.len(), pos + e0.len() + rest.len()) =~= rest) by {
            assert forall|k: int| 0 <= k < rest.len() implies s.subrange(
                pos + e0.len(),
                pos + e0.len() + rest.len(),
            )[k] == rest[k] by {
                assert(s.subrange(pos + e0.len(), pos + e0.len() + rest.len())[k] == s[pos
                    + e0.len() + k]);
                assert(s[pos + e0.len() + k] == s.subrange(pos, pos + enc_users(us).len())[e0.len()
                    + k]);
                assert(enc_users(us)[e0.len() + k] == rest[k]);
            }
        }
        assert forall|i: int| 0 <= i < us.drop_first().len() implies #[trigger] us.drop_first()[i].username.len()
            <= usize::MAX && us.drop_first()[i].password.len() <= usize::MAX by {
            assert(us.drop_first()[i] == us[i + 1]);
        }
        lemma_dec_users_encoded(s, pos + e0.len(), us.drop_first(), acc.push(us[0]));
        assert(acc.push(us[0]) + us.drop_first() =~= acc + us);
    }
}

/// Decoding inverts encoding: the snapshot round trip loses nothing.
pub proof fn lemma_decode_encode(ts: Seq<TaskV>, us: Seq<UserV>)
    requires
        ts.len() <= usize::MAX,
        us.len() <= usize::MAX,
        forall|i: int| 0 <= i < ts.len() ==> #[trigger] ts[i].name.len() <= usize::MAX,
        forall|i: int|
            0 <= i < us.len() ==> #[trigger] us[i].username.len() <= usize::MAX
                && us[i].password.len() <= usize::MAX,
    ensures
        spec_decode(spec_encode(ts, us)) == Some((ts, us)),
{
    let s = spec_encode(ts, us);
    let et = enc_tasks(ts);
    let eu = enc_users(us);
    let p = 1 + et.len() as int;
    assert(s.len() == 1 + et.len() + 1 + eu.len());
    assert(s[0] == ts.len() as u64);
    assert(s[0] as nat == ts.len());
    assert(s.subrange(1, p) =~= et) by {
        assert forall|k: int| 0 <= k < et.len() implies s.subrange(1, p)[k]
            == et[k] by {
            assert(s.subrange(1, p)[k] == s[1 + k]);
            assert(s[1 + k] == et[k]);
        }
    }
    lemma_dec_tasks_encoded(s, 1, ts, Seq::empty());
    assert(Seq::<TaskV>::empty() + ts =~= ts);
    assert(dec_tasks(s, 1, s[0] as nat, Seq::empty()) == Some((ts, p)));
    assert(s[p] == us.len() as u64);
    assert(s[p] as nat == us.len());
    assert(s.subrange(p + 1, p + 1 + eu.len()) =~= eu) by {
        assert forall|k: int| 0 <= k < eu.len() implies s.subrange(p + 1, p + 1 + eu.len())[k]
            == eu[k] by {
            assert(s.subrange(p + 1, p + 1 + eu.len())[k] == s[p + 1 + k]);
            assert(s[p + 1 + k] == eu[k]);
        }
    }
    lemma_dec_users_encoded(s, p + 1, us, Seq::empty());
    assert(Seq::<UserV>::empty() + us =~= us);
    assert(dec_users(s, p + 1, s[p] as nat, Seq::empty()) == Some((us, s.len() as int)));
}

/// Relies on char::from_u32: a Unicode scalar value converts to the char
/// carrying it, and anything else (a surrogate, or a value past the last
/// code point) converts to nothing.
#[verifier::external_body]
fn char_from_u32(v: u32) -> (r: Option<char>)
    ensures
        (r is Some) == is_scalar(v),
        r matches Some(c) ==> c as u32 == v,
{
    char::from_u32(v)
}

/// Relies on String::push: it appends exactly the one character.
#[verifier::external_body]
fn push_char(s: &mut String, c: char)
    ensures
        final(s)@ == old(s)@.push(c),
{
    s.push(c);
}

/// Reads `n` characters of a length-prefixed string out of the stream.
fn read_chars(words: &Vec<u64>, start: usize, n: usize) -> (r: Option<(String, usize)>)
    requires
        start <= words@.len(),
    ensures
        match r {
            Some(sp) => dec_chars(words@, start as int, n as nat, Seq::empty()) == Some(
                (sp.0@, sp.1 as int),
            ) && sp.1 <= words@.len(),
            None => dec_chars(words@, start as int, n as nat, Seq::empty()) is None,
        },
{
    let mut s = String::new();
    let mut pos = start;
    let mut j: usize = 0;
    while j < n
        invariant
            j <= n,
            dec_chars(words@, start as int, n as nat, Seq::empty()) == dec_chars(
                words@,
                pos as int,
                (n - j) as nat,
                s@,
            ),
            pos <= words@.len(),
        decreases n - j,
    {
        if pos >= words.len() {
            return None;
        }
        let w = words[pos];
        if w > 0x10FFFF {
            assert(!word_char_ok(w));
            return None;
        }
        match char_from_u32(w as u32) {
            None => {
                assert(!word_char_ok(w));
                return None;
            },
            Some(c) => {
                proof {
                    assert(word_char_ok(w));
                    vstd::utf8::char_u32_cast(c, w as u32);
                    assert(word_char(w) == c);
                }
                push_char(&mut s, c);
                pos = pos + 1;
                j = j + 1;
            },
        }
    }
    Some((s, pos))
}

/// Reads one encoded task out of the stream.
fn read_task(words: &Vec<u64>, start: usize) -> (r: Option<(Task, usize)>)
    ensures
        match r {
            Some(tp) => dec_task(words@, start as int) == Some((tp.0@, tp.1 as int)) && tp.1
                <= words@.len(),
            None => dec_task(words@, start as int) is None,
        },
{
    if start > words.len() || words.len() - start < 2 {
        return None;
    }
    let id = words[start];
    let nlen64 = words[start + 1];
    if nlen64 > usize::MAX as u64 {
        return None;
    }
    let nlen = nlen64 as usize;
    match read_chars(words, start + 2, nlen) {
        None => None,
        Some((name, p)) => {
            if p >= words.len() {
                return None;
            }
            let flag = words[p];
            if flag > 1 {
                return None;
            }
            Some((Task { id, name, completed: flag == 1 }, p + 1))
        },
    }
}

/// Reads one encoded user out of the stream.
fn read_user(words: &Vec<u64>, start: usize) -> (r: Option<(User, usize)>)
    ensures
        match r {
            Some(up) => dec_user(words@, start as int) == Some((up.0@, up.1 as int)) && up.1
                <= words@.len(),
            None => dec_user(words@, start as int) is None,
        },
{
    if start > words.len() || words.len() - start < 2 {
        return None;
    }
    let id = words[start];
    let nlen64 = words[start + 1];
    if nlen64 > usize::MAX as u64 {
        return None;
    }
    let nlen = nlen64 as usize;
    match read_chars(words, start + 2, nlen) {
        None => None,
        Some((username, p1)) => {
            if p1 >= words.len() {
                return None;
            }
            let mlen64 = words[p1];
            if mlen64 > usize::MAX as u64 {
                return None;
            }
            let mlen = mlen64 as usize;
            match read_chars(words, p1 + 1, mlen) {
                None => None,
                Some((password, p2)) => Some((User { id, username, password }, p2)),
            }
        },
    }
}

impl Database {
    /// Flattens the whole store into its snapshot word stream; the stream
    /// decodes back to exactly this store's records.
    pub fn to_snapshot(&self) -> (v: Vec<u64>)
        ensures
            v@ == spec_encode(task_views(self.tasks@), user_views(self.users@)),
            spec_decode(v@) == Some((task_views(self.tasks@), user_views(self.users@))),
    {
        let ghost tsv = task_views(self.tasks@);
        let ghost usv = user_views(self.users@);
        let mut v: Vec<u64> = Vec::new();
        let n_tasks = self.tasks.len();
        v.push(n_tasks as u64);
        proof {
            assert(v@ =~= seq![tsv.len() as u64] + enc_tasks(tsv.take(0)));
        }
        let mut i: usize = 0;
        while i < self.tasks.len()
            invariant
                tsv == task_views(self.tasks@),
                usv == user_views(self.users@),
                tsv.len() == self.tasks@.len(),
                i <= tsv.len(),
                v@ == seq![tsv.len() as u64] + enc_tasks(tsv.take(i as int)),
                forall|j: int| 0 <= j < i ==> #[trigger] tsv[j].name.len() <= usize::MAX,
            decreases tsv.len() - i,
        {
            proof {
                assert(tsv[i as int] == self.tasks@[i as int]@);
            }
            v.push(self.tasks[i].id);
            let name_len = self.tasks[i].name.as_str().unicode_len();
            v.push(name_len as u64);
            let ghost mid = v@;
            let mut j: usize = 0;
            while j < name_len
                invariant
                    tsv == task_views(self.tasks@),
                    tsv.len() == self.tasks@.len(),
                    i < tsv.len(),
                    tsv[i as int] == self.tasks@[i as int]@,
                    name_len == self.tasks@[i as int].name@.len(),
                    j <= name_len,
                    mid == seq![tsv.len() as u64] + enc_tasks(tsv.take(i as int)) + seq![
                        tsv[i as int].id,
                        name_len as u64,
                    ],
                    v@ == mid + enc_chars(tsv[i as int].name.take(j as int)),
                decreases name_len - j,
            {
                let c = self.tasks[i].name.as_str().get_char(j);
                v.push((c as u32) as u64);
                proof {
                    let nm = tsv[i as int].name;
                    assert(c == nm[j as int]);
                    assert(enc_chars(nm.take((j + 1) as int)) =~= enc_chars(nm.take(j as int)).push(
                        (nm[j as int] as u32) as u64,
                    )) by {
                        assert forall|k: int|
                            #![trigger enc_chars(nm.take((j + 1) as int))[k]]
                            0 <= k < j + 1 implies enc_chars(nm.take((j + 1) as int))[k]
                            == enc_chars(nm.take(j as int)).push(
                            (nm[j as int] as u32) as u64,
                        )[k] by {
                            assert(enc_chars(nm.take((j + 1) as int))[k] == (nm.take(
                                (j + 1) as int,
                            )[k] as u32) as u64);
                            if k < j {
                                assert(enc_chars(nm.take(j as int))[k] == (nm.take(
                                    j as int,
                                )[k] as u32) as u64);
                            }
                        }
                    }
                    assert(v@ =~= mid + enc_chars(nm.take((j + 1) as int)));
                }
                j = j + 1;
            }
            if self.tasks[i].completed {
                v.push(1);
            } else {
                v.push(0);
            }
            proof {
                let tv = tsv[i as int];
                assert(tv.name.take(name_len as int) =~= tv.name);
                assert(v@ =~= seq![tsv.len() as u64] + enc_tasks(tsv.take(i as int)) + enc_task(
                    tv,
                ));
                assert(tsv.take((i + 1) as int).drop_last() =~= tsv.take(i as int));
                assert(tsv.take((i + 1) as int).last() == tv);
                assert(enc_tasks(tsv.take((i + 1) as int)) == enc_tasks(tsv.take(i as int))
                    + enc_task(tv));
                assert(v@ =~= seq![tsv.len() as u64] + enc_tasks(tsv.take((i + 1) as int)));
            }
            i = i + 1;
        }
        proof {
            assert(tsv.take(tsv.len() as int) =~= tsv);
        }
        let n_users = self.users.len();
        v.push(n_users as u64);
        let ghost head = v@;
        proof {
            assert(head =~= seq![tsv.len() as u64] + enc_tasks(tsv) + seq![usv.len() as u64]
                + enc_users(usv.take(0)));
        }
        let mut i: usize = 0;
        while i < self.users.len()
            invariant
                tsv == task_views(self.tasks@),
                usv == user_views(self.users@),
                usv.len() == self.users@.len(),
                i <= usv.len(),
                v@ == seq![tsv.len() as u64] + enc_tasks(tsv) + seq![usv.len() as u64] + enc_users(
                    usv.take(i as int),
                ),
                forall|j: int| 0 <= j < i ==> #[trigger] usv[j].username.len() <= usize::MAX
                    && usv[j].password.len() <= usize::MAX,
                forall|j: int| 0 <= j < tsv.len() ==> #[trigger] tsv[j].name.len() <= usize::MAX,
            decreases usv.len() - i,
        {
            proof {
                assert(usv[i as int] == self.users@[i as int]@);
            }
            v.push(self.users[i].id);
            let uname_len = self.users[i].username.as_str().unicode_len();
            v.push(uname_len as u64);
            let ghost mid = v@;
            let mut j: usize = 0;
            while j < uname_len
                invariant
                    usv == user_views(self.users@),
                    usv.len() == self.users@.len(),
                    i < usv.len(),
                    usv[i as int] == self.users@[i as int]@,
                    uname_len == self.users@[i as int].username@.len(),
                    j <= uname_len,
                    mid == seq![tsv.len() as u64] + enc_tasks(tsv) + seq![usv.len() as u64]
                        + enc_users(usv.take(i as int)) + seq![usv[i as int].id, uname_len as u64],
                    v@ == mid + enc_chars(usv[i as int].username.take(j as int)),
                decreases uname_len - j,
            {
                let c = self.users[i].username.as_str().get_char(j);
                v.push((c as u32) as u64);
                proof {
                    let nm = usv[i as int].username;
                    assert(c == nm[j as int]);
                    assert(enc_chars(nm.take((j + 1) as int)) =~= enc_chars(nm.take(j as int)).push(
                        (nm[j as int] as u32) as u64,
                    )) by {
                        assert forall|k: int|
                            #![trigger enc_chars(nm.take((j + 1) as int))[k]]
                            0 <= k < j + 1 implies enc_chars(nm.take((j + 1) as int))[k]
                            == enc_chars(nm.take(j as int)).push(
                            (nm[j as int] as u32) as u64,
                        )[k] by {
                            assert(enc_chars(nm.take((j + 1) as int))[k] == (nm.take(
                                (j + 1) as int,
                            )[k] as u32) as u64);
                            if k < j {
                                assert(enc_chars(nm.take(j as int))[k] == (nm.take(
                                    j as int,
                                )[k] as u32) as u64);
                            }
                        }
                    }
                    assert(v@ =~= mid + enc_chars(nm.take((j + 1) as int)));
                }
                j = j + 1;
            }
            let pass_len = self.users[i].password.as_str().unicode_len();
            v.push(pass_len as u64);
            let ghost mid2 = v@;
            proof {
                let uv = usv[i as int];
                assert(uv.username.take(uname_len as int) =~= uv.username);
                assert(mid2 =~= seq![tsv.len() as u64] + enc_tasks(tsv) + seq![usv.len() as u64]
                    + enc_users(usv.take(i as int)) + seq![uv.id, uname_len as u64] + enc_chars(
                    uv.username,
                ) + seq![pass_len as u64]);
            }
            let mut j: usize = 0;
            while j < pass_len
                invariant
                    usv == user_views(self.users@),
                    usv.len() == self.users@.len(),
                    i < usv.len(),
                    usv[i as int] == self.users@[i as int]@,
                    pass_len == self.users@[i as int].password@.len(),
                    j <= pass_len,
                    mid2 == seq![tsv.len() as u64] + enc_tasks(tsv) + seq![usv.len() as u64]
                        + enc_users(usv.take(i as int)) + seq![
                        usv[i as int].id,
                        usv[i as int].username.len() as u64,
                    ] + enc_chars(usv[i as int].username) + seq![pass_len as u64],
                    v@ == mid2 + enc_chars(usv[i as int].password.take(j as int)),
                decreases pass_len - j,
            {
                let c = self.users[i].password.as_str().get_char(j);
                v.push((c as u32) as u64);
                proof {
                    let nm = usv[i as int].password;
                    assert(c == nm[j as int]);
                    assert(enc_chars(nm.take((j + 1) as int)) =~= enc_chars(nm.take(j as int)).push(
                        (nm[j as int] as u32) as u64,
                    )) by {
                        assert forall|k: int|
                            #![trigger enc_chars(nm.take((j + 1) as int))[k]]
                            0 <= k < j + 1 implies enc_chars(nm.take((j + 1) as int))[k]
                            == enc_chars(nm.take(j as int)).push(
                            (nm[j as int] as u32) as u64,
                        )[k] by {
                            assert(enc_chars(nm.take((j + 1) as int))[k] == (nm.take(
                                (j + 1) as int,
                            )[k] as u32) as u64);
                            if k < j {
                                assert(enc_chars(nm.take(j as int))[k] == (nm.take(
                                    j as int,
                                )[k] as u32) as u64);
                            }
                        }
                    }
                    assert(v@ =~= mid2 + enc_chars(nm.take((j + 1) as int)));
                }
                j = j + 1;
            }
            proof {
                let uv = usv[i as int];
                assert(uv.password.take(pass_len as int) =~= uv.password);
                assert(v@ =~= seq![tsv.len() as u64] + enc_tasks(tsv) + seq![usv.len() as u64]
                    + enc_users(usv.take(i as int)) + enc_user(uv));
                assert(usv.take((i + 1) as int).drop_last() =~= usv.take(i as int));
                assert(usv.take((i + 1) as int).last() == uv);
                assert(enc_users(usv.take((i + 1) as int)) == enc_users(usv.take(i as int))
                    + enc_user(uv));
                assert(v@ =~= seq![tsv.len() as u64] + enc_tasks(tsv) + seq![usv.len() as u64]
                    + enc_users(usv.take((i + 1) as int)));
            }
            i = i + 1;
        }
        proof {
            assert(usv.take(usv.len() as int) =~= usv);
            assert(v@ =~= spec_encode(tsv, usv));
            lemma_decode_encode(tsv, usv);
        }
        v
    }

    /// Rebuilds a store from a snapshot stream. A well-formed stream yields
    /// exactly the records it encodes; a malformed one yields a fresh empty
    /// store rather than an error.
    pub fn from_snapshot(words: &Vec<u64>) -> (db: Database)
        ensures
            db.wf(),
            match spec_decode(words@) {
                Some(r) => db.task_map() == vtask_map_of(r.0) && db.user_map() == vuser_map_of(
                    r.1,
                ),
                None => db.task_map() == Map::<u64, TaskV>::empty() && db.user_map() == Map::<
                    u64,
                    UserV,
                >::empty(),
            },
    {
        let ghost s = words@;
        if words.len() < 1 {
            return Database::new();
        }
        let n64 = words[0];
        if n64 > usize::MAX as u64 {
            return Database::new();
        }
        let n = n64 as usize;
        let mut db = Database::new();
        let mut pos: usize = 1;
        let ghost mut acc: Seq<TaskV> = Seq::empty();
        let mut k: usize = 0;
        while k < n
            invariant
                s == words@,
                s.len() >= 1,
                s[0] == n as u64,
                s[0] <= usize::MAX as u64,
                n as nat == s[0] as nat,
                k <= n,
                db.wf(),
                db.users@.len() == 0,
                db.task_map() == vtask_map_of(acc),
                dec_tasks(s, 1, s[0] as nat, Seq::empty()) == dec_tasks(
                    s,
                    pos as int,
                    (n - k) as nat,
                    acc,
                ),
                pos <= s.len(),
            decreases n - k,
        {
            match read_task(words, pos) {
                None => {
                    return Database::new();
                },
                Some((t, p2)) => {
                    proof {
                        assert(dec_tasks(s, pos as int, (n - k) as nat, acc) == dec_tasks(
                            s,
                            p2 as int,
                            (n - k - 1) as nat,
                            acc.push(t@),
                        ));
                    }
                    db.insert(t);
                    proof {
                        assert(acc.push(t@).drop_last() =~= acc);
                        assert(acc.push(t@).last() == t@);
                        acc = acc.push(t@);
                    }
                    pos = p2;
                    k = k + 1;
                },
            }
        }
        let ghost tseq = acc;
        let ghost tpos = pos as int;
        if pos >= words.len() {
            return Database::new();
        }
        let m64 = words[pos];
        if m64 > usize::MAX as u64 {
            return Database::new();
        }
        let m = m64 as usize;
        pos = pos + 1;
        let ghost mut uacc: Seq<UserV> = Seq::empty();
        let mut k2: usize = 0;
        while k2 < m
            invariant
                s == words@,
                s.len() >= 1,
                s[0] <= usize::MAX as u64,
                dec_tasks(s, 1, s[0] as nat, Seq::empty()) == Some((tseq, tpos)),
                0 <= tpos < s.len(),
                s[tpos] == m as u64,
                s[tpos] <= usize::MAX as u64,
                m as nat == s[tpos] as nat,
                k2 <= m,
                db.wf(),
                db.task_map() == vtask_map_of(tseq),
                db.user_map() == vuser_map_of(uacc),
                dec_users(s, tpos + 1, s[tpos] as nat, Seq::empty()) == dec_users(
                    s,
                    pos as int,
                    (m - k2) as nat,
                    uacc,
                ),
                pos <= s.len(),
            decreases m - k2,
        {
            match read_user(words, pos) {
                None => {
                    return Database::new();
                },
                Some((u, p2)) => {
                    proof {
                        assert(dec_users(s, pos as int, (m - k2) as nat, uacc) == dec_users(
                            s,
                            p2 as int,
                            (m - k2 - 1) as nat,
                            uacc.push(u@),
                        ));
                    }
                    db.insert_user(u);
                    proof {
                        assert(uacc.push(u@).drop_last() =~= uacc);
                        assert(uacc.push(u@).last() == u@);
                        uacc = uacc.push(u@);
                    }
                    pos = p2;
                    k2 = k2 + 1;
                },
            }
        }
        if pos != words.len() {
            return Database::new();
        }
        proof {
            assert(dec_users(s, tpos + 1, s[tpos] as nat, Seq::empty()) == Some(
                (uacc, pos as int),
            ));
            assert(spec_decode(s) == Some((tseq, uacc)));
        }
        db
    }
}

/// A saved store reloads to an equal store: decoding the encoded model
/// sequences gives them back, and they denote the very maps the store holds.
pub proof fn lemma_snapshot_round_trip(db: Database)
    requires
        db.tasks@.len() <= usize::MAX,
        db.users@.len() <= usize::MAX,
        forall|i: int|
            0 <= i < db.tasks@.len() ==> #[trigger] db.tasks@[i].name@.len() <= usize::MAX,
        forall|i: int|
            0 <= i < db.users@.len() ==> #[trigger] db.users@[i].username@.len() <= usize::MAX
                && db.users@[i].password@.len() <= usize::MAX,
    ensures
        spec_decode(spec_encode(task_views(db.tasks@), user_views(db.users@))) == Some(
            (task_views(db.tasks@), user_views(db.users@)),
        ),
        vtask_map_of(task_views(db.tasks@)) == db.task_map(),
        vuser_map_of(user_views(db.users@)) == db.user_map(),
{
    let tsv = task_views(db.tasks@);
    let usv = user_views(db.users@);
    assert forall|i: int| 0 <= i < tsv.len() implies #[trigger] tsv[i].name.len()
        <= usize::MAX by {
        assert(tsv[i] == db.tasks@[i]@);
    }
    assert forall|i: int| 0 <= i < usv.len() implies #[trigger] usv[i].username.len()
        <= usize::MAX && usv[i].password.len() <= usize::MAX by {
        assert(usv[i] == db.users@[i]@);
    }
    lemma_decode_encode(tsv, usv);
    lemma_task_map_views(db.tasks@);
    lemma_user_map_views(db.users@);
}

} // verus!
