//! The interface every storage engine offers.

use crate::Result;
use vstd::prelude::*;

verus! {

/// A key-value storage engine that the server can share between workers.
pub trait KvsEngine: Clone + Send + 'static {
    /// Sets the value of a key, replacing any older one.
    fn set(&self, key: String, value: String) -> Result<()>;

    /// The value of a key, or `None` when the key is not set.
    fn get(&self, key: String) -> Result<Option<String>>;

    /// Removes a key; fails when the key is not set.
    fn remove(&self, key: String) -> Result<()>;
}

/// The engines a server can run.
#[derive(Clone, Copy, Debug, PartialEq, Eq, Structural)]
pub enum EngineKind {
    Kvs,
    Sled,
}

/// Whether `pat` occurs in `s`.
pub open spec fn occurs_in(pat: Seq<char>, s: Seq<char>) -> bool {
    exists|i: int| 0 <= i && i + pat.len() <= s.len() && #[trigger] s.subrange(i, i + pat.len()) == pat
}

/// The mark of sled's files in a name.
pub open spec fn sled_mark() -> Seq<char> {
    seq!['d', 'b']
}

/// The mark of the store's log files in a name.
pub open spec fn log_mark() -> Seq<char> {
    seq!['.', 'l', 'o', 'g']
}

/// Whether a directory holding files `names` holds sled's data.
pub open spec fn holds_sled_data(names: Seq<Seq<char>>) -> bool {
    exists|i: int| 0 <= i < names.len() && occurs_in(sled_mark(), #[trigger] names[i])
}

/// Whether a directory holding files `names` holds the store's data: a log
/// file that is not taken for sled's.
pub open spec fn holds_store_data(names: Seq<Seq<char>>) -> bool {
    exists|i: int|
        0 <= i < names.len() && !occurs_in(sled_mark(), #[trigger] names[i]) && occurs_in(
            log_mark(),
            names[i],
        )
}

/// The engine a server runs in a directory holding files `names`: the one
/// asked for, or the store and then sled when none is, and only an engine
/// whose directory holds no data of the other one. `None` when none fits.
pub open spec fn spec_choose_engine(names: Seq<Seq<char>>, requested: Option<EngineKind>) -> Option<
    EngineKind,
> {
    match requested {
        Some(EngineKind::Kvs) => if !holds_sled_data(names) {
            Some(EngineKind::Kvs)
        } else {
            None
        },
        Some(EngineKind::Sled) => if !holds_store_data(names) {
            Some(EngineKind::Sled)
        } else {
            None
        },
        None => if !holds_sled_data(names) {
            Some(EngineKind::Kvs)
        } else if !holds_store_data(names) {
            Some(EngineKind::Sled)
        } else {
            None
        },
    }
}

/// What the choice of engine depends on. An engine asked for is chosen
/// exactly when the directory holds no data of the other engine, whatever
/// data of its own it holds, and refused otherwise; the choice never gives
/// an engine other than the one asked for. With none asked for, the store
/// is chosen where it would be if asked for, and otherwise sled where it
/// would be: the choice is the store's answer, or failing that sled's.
pub proof fn lemma_engine_choice(names: Seq<Seq<char>>)
    ensures
        spec_choose_engine(names, Some(EngineKind::Kvs)) == Some(EngineKind::Kvs)
            <==> !holds_sled_data(names),
        spec_choose_engine(names, Some(EngineKind::Kvs)) != Some(EngineKind::Kvs) ==> spec_choose_engine(
            names,
            Some(EngineKind::Kvs),
        ) is None,
        spec_choose_engine(names, Some(EngineKind::Sled)) == Some(EngineKind::Sled)
            <==> !holds_store_data(names),
        spec_choose_engine(names, Some(EngineKind::Sled)) != Some(EngineKind::Sled)
            ==> spec_choose_engine(names, Some(EngineKind::Sled)) is None,
        holds_store_data(names) && !holds_sled_data(names) ==> spec_choose_engine(
            names,
            Some(EngineKind::Kvs),
        ) == Some(EngineKind::Kvs),
        spec_choose_engine(names, None) == (if spec_choose_engine(names, Some(EngineKind::Kvs)) is Some {
            spec_choose_engine(names, Some(EngineKind::Kvs))
        } else {
            spec_choose_engine(names, Some(EngineKind::Sled))
        }),
{
}

/// A pattern occurs wherever it is written, and only in texts at least as
/// long as itself.
pub proof fn lemma_occurs_in(pat: Seq<char>, pre: Seq<char>, post: Seq<char>, s: Seq<char>)
    ensures
        occurs_in(pat, pre + pat + post),
        occurs_in(pat, s) ==> pat.len() <= s.len(),
{
    let t = pre + pat + post;
    assert(t.subrange(pre.len() as int, pre.len() as int + pat.len()) =~= pat);
}

/// The data a directory holds, file by file: one more file adds sled's
/// data exactly when its name carries sled's mark, and the store's exactly
/// when it carries the log mark and not sled's.
pub proof fn lemma_data_of_one_more_file(names: Seq<Seq<char>>, n: Seq<char>)
    ensures
        holds_sled_data(names.push(n)) <==> (holds_sled_data(names) || occurs_in(sled_mark(), n)),
        holds_store_data(names.push(n)) <==> (holds_store_data(names) || (!occurs_in(
            sled_mark(),
            n,
        ) && occurs_in(log_mark(), n))),
        !holds_sled_data(Seq::<Seq<char>>::empty()),
        !holds_store_data(Seq::<Seq<char>>::empty()),
{
    let ns = names.push(n);
    if holds_sled_data(ns) {
        let i = choose|i: int| 0 <= i < ns.len() && occurs_in(sled_mark(), #[trigger] ns[i]);
        if i < names.len() {
            assert(ns[i] == names[i]);
        }
    }
    if holds_sled_data(names) {
        let i = choose|i: int| 0 <= i < names.len() && occurs_in(sled_mark(), #[trigger] names[i]);
        assert(ns[i] == names[i]);
    }
    if occurs_in(sled_mark(), n) {
        assert(ns[names.len() as int] == n);
    }
    if holds_store_data(ns) {
        let i = choose|i: int|
            0 <= i < ns.len() && !occurs_in(sled_mark(), #[trigger] ns[i]) && occurs_in(
                log_mark(),
                ns[i],
            );
        if i < names.len() {
            assert(ns[i] == names[i]);
        }
    }
    if holds_store_data(names) {
        let i = choose|i: int|
            0 <= i < names.len() && !occurs_in(sled_mark(), #[trigger] names[i]) && occurs_in(
                log_mark(),
                names[i],
            );
        assert(ns[i] == names[i]);
    }
    if !occurs_in(sled_mark(), n) && occurs_in(log_mark(), n) {
        assert(ns[names.len() as int] == n);
    }
}

fn occurs(pat: &Vec<char>, s: &Vec<char>) -> (r: bool)
    ensures
        r == occurs_in(pat@, s@),
{
    if pat.len() > s.len() {
        return false;
    }
    let n = pat.len();
    if n == 0 {
        assert(s@.subrange(0, 0int + pat@.len()) =~= pat@);
        return true;
    }
    let mut i: usize = 0;
    while i <= s.len() - n
        invariant
            n == pat@.len(),
            1 <= n <= s@.len(),
            i <= s@.len() - n + 1,
            forall|x: int| 0 <= x < i && x + n <= s@.len() ==> #[trigger] s@.subrange(x, x + n) != pat@,
        decreases s@.len() - i,
    {
        let mut j: usize = 0;
        let mut same = true;
        while j < n
            invariant
                n == pat@.len(),
                i + n <= s@.len(),
                j <= n,
                same == forall|y: int| 0 <= y < j ==> s@[i + y] == pat@[y],
            decreases n - j,
        {
            let len = s.len();
            assert(i + j < len);
            if s[i + j] != pat[j] {
                same = false;
            }
            j = j + 1;
        }
        if same {
            assert(s@.subrange(i as int, i + n) =~= pat@);
            return true;
        }
        proof {
            let y = choose|y: int| 0 <= y < n && s@[i + y] != pat@[y];
            assert(s@.subrange(i as int, i + n)[y] != pat@[y]);
        }
        i = i + 1;
    }
    false
}

/// The engine a server runs in a directory holding files `names`, for the
/// engine asked for: see `spec_choose_engine`.
pub fn choose_engine(names: &Vec<String>, requested: Option<EngineKind>) -> (r: Option<EngineKind>)
    ensures
        r == spec_choose_engine(names@.map_values(|n: String| n@), requested),
        requested == Some(EngineKind::Kvs) ==> (r == Some(EngineKind::Kvs) <==> !holds_sled_data(
            names@.map_values(|n: String| n@),
        )) && (r is None <==> holds_sled_data(names@.map_values(|n: String| n@))),
        requested == Some(EngineKind::Sled) ==> (r == Some(EngineKind::Sled) <==> !holds_store_data(
            names@.map_values(|n: String| n@),
        )) && (r is None <==> holds_store_data(names@.map_values(|n: String| n@))),
        requested is None ==> (r == Some(EngineKind::Kvs) <==> !holds_sled_data(
            names@.map_values(|n: String| n@),
        )),
        requested is None ==> (r == Some(EngineKind::Sled) <==> holds_sled_data(
            names@.map_values(|n: String| n@),
        ) && !holds_store_data(names@.map_values(|n: String| n@))),
{
    let ghost views = names@.map_values(|n: String| n@);
    let db = vec!['d', 'b'];
    let lg = vec!['.', 'l', 'o', 'g'];
    assert(db@ == sled_mark());
    assert(lg@ == log_mark());
    let mut sled_data = false;
    let mut store_data = false;
    let mut i: usize = 0;
    while i < names.len()
        invariant
            i <= names@.len(),
            views == names@.map_values(|n: String| n@),
            db@ == sled_mark(),
            lg@ == log_mark(),
            sled_data == exists|x: int| 0 <= x < i && occurs_in(sled_mark(), #[trigger] views[x]),
            store_data == exists|x: int|
                0 <= x < i && !occurs_in(sled_mark(), #[trigger] views[x]) && occurs_in(
                    log_mark(),
                    views[x],
                ),
        decreases names@.len() - i,
    {
        let cs = crate::protocol::chars_of(names[i].as_str());
        assert(views[i as int] == cs@);
        if occurs(&db, &cs) {
            sled_data = true;
        } else if occurs(&lg, &cs) {
            store_data = true;
        }
        i = i + 1;
    }
    match requested {
        Some(EngineKind::Kvs) => if !sled_data {
            Some(EngineKind::Kvs)
        } else {
            None
        },
        Some(EngineKind::Sled) => if !store_data {
            Some(EngineKind::Sled)
        } else {
            None
        },
        None => if !sled_data {
            Some(EngineKind::Kvs)
        } else if !store_data {
            Some(EngineKind::Sled)
        } else {
            None
        },
    }
}

} // verus!
