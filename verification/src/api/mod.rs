//! The state that the handlers of the engine's requests share: the paths
//! that are being read, each with the sender of the signal that stops its
//! processor.

use vstd::prelude::*;

use crate::config::Config;
use tokio::sync::oneshot::Sender;

pub mod log_driver;
pub mod plugin;

verus! {

/// The senders that a list of entries holds, by their paths. Of two
/// entries with one path the later one counts.
pub open spec fn senders_of(entries: Seq<(String, Sender<bool>)>) -> Map<Seq<char>, Sender<bool>>
    decreases entries.len(),
{
    if entries.len() == 0 {
        Map::empty()
    } else {
        senders_of(entries.drop_last()).insert(entries.last().0@, entries.last().1)
    }
}

/// Whether no two entries of a list have the same path.
pub open spec fn distinct_paths(entries: Seq<(String, Sender<bool>)>) -> bool {
    forall|i: int, j: int|
        0 <= i < j < entries.len() ==> (#[trigger] entries[i]).0@ != (#[trigger] entries[j]).0@
}

/// The number of entries of a list that have the path `path`.
pub open spec fn count_of(entries: Seq<(String, Sender<bool>)>, path: Seq<char>) -> nat
    decreases entries.len(),
{
    if entries.len() == 0 {
        0
    } else {
        count_of(entries.drop_last(), path) + if entries.last().0@ == path {
            1nat
        } else {
            0nat
        }
    }
}

/// A path that occurs in a list is a key of its senders, and no other is.
pub proof fn lemma_senders_dom(entries: Seq<(String, Sender<bool>)>, path: Seq<char>)
    ensures
        senders_of(entries).contains_key(path) <==> exists|i: int|
            0 <= i < entries.len() && (#[trigger] entries[i]).0@ == path,
    decreases entries.len(),
{
    if entries.len() > 0 {
        let front = entries.drop_last();
        lemma_senders_dom(front, path);
        if senders_of(entries).contains_key(path) {
            if entries.last().0@ == path {
                assert(entries[entries.len() - 1].0@ == path);
            } else {
                let i = choose|i: int| 0 <= i < front.len() && (#[trigger] front[i]).0@ == path;
                assert(entries[i].0@ == path);
            }
        }
        if exists|i: int| 0 <= i < entries.len() && (#[trigger] entries[i]).0@ == path {
            let i = choose|i: int| 0 <= i < entries.len() && (#[trigger] entries[i]).0@ == path;
            if i < entries.len() - 1 {
                assert(front[i].0@ == path);
            }
        }
    }
}

/// In a list of distinct paths, the sender of a path is that of the entry
/// that has the path.
pub proof fn lemma_senders_at(entries: Seq<(String, Sender<bool>)>, i: int)
    requires
        distinct_paths(entries),
        0 <= i < entries.len(),
    ensures
        senders_of(entries).contains_key(entries[i].0@),
        senders_of(entries)[entries[i].0@] == entries[i].1,
    decreases entries.len(),
{
    let front = entries.drop_last();
    if i < entries.len() - 1 {
        assert(distinct_paths(front)) by {
            assert forall|a: int, b: int| 0 <= a < b < front.len() implies (#[trigger] front[a]).0@
                != (#[trigger] front[b]).0@ by {
                assert(entries[a].0@ != entries[b].0@);
            }
        }
        lemma_senders_at(front, i);
        assert(front[i] == entries[i]);
        assert(entries[i].0@ != entries[entries.len() - 1].0@);
    }
}

/// Taking one entry out of a list of distinct paths takes its path out of
/// the senders, and leaves the others as they are.
pub proof fn lemma_senders_remove(entries: Seq<(String, Sender<bool>)>, i: int)
    requires
        distinct_paths(entries),
        0 <= i < entries.len(),
    ensures
        distinct_paths(entries.remove(i)),
        senders_of(entries.remove(i)) == senders_of(entries).remove(entries[i].0@),
    decreases entries.len(),
{
    let rest = entries.remove(i);
    assert(distinct_paths(rest)) by {
        assert forall|a: int, b: int| 0 <= a < b < rest.len() implies (#[trigger] rest[a]).0@ != (
        #[trigger] rest[b]).0@ by {
            let a2 = if a < i {
                a
            } else {
                a + 1
            };
            let b2 = if b < i {
                b
            } else {
                b + 1
            };
            assert(rest[a] == entries[a2]);
            assert(rest[b] == entries[b2]);
            assert(entries[a2].0@ != entries[b2].0@);
        }
    }
    let front = entries.drop_last();
    if i == entries.len() - 1 {
        assert(rest == front);
        lemma_senders_dom(front, entries[i].0@);
        if senders_of(front).contains_key(entries[i].0@) {
            let k = choose|k: int| 0 <= k < front.len() && (#[trigger] front[k]).0@ == entries[i].0@;
            assert(entries[k].0@ == entries[i].0@);
        }
        assert(senders_of(rest) == senders_of(entries).remove(entries[i].0@));
    } else {
        assert(distinct_paths(front)) by {
            assert forall|a: int, b: int| 0 <= a < b < front.len() implies (#[trigger] front[a]).0@
                != (#[trigger] front[b]).0@ by {
                assert(entries[a].0@ != entries[b].0@);
            }
        }
        lemma_senders_remove(front, i);
        assert(rest.drop_last() == front.remove(i));
        assert(rest.last() == entries.last());
        assert(front[i] == entries[i]);
        assert(entries[i].0@ != entries[entries.len() - 1].0@);
        assert(senders_of(rest) == senders_of(entries).remove(entries[i].0@));
    }
}

/// A list of distinct paths holds a path once where it is a key of its
/// senders, and not at all where it is none.
pub proof fn lemma_count_of(entries: Seq<(String, Sender<bool>)>, path: Seq<char>)
    requires
        distinct_paths(entries),
    ensures
        count_of(entries, path) == if senders_of(entries).contains_key(path) {
            1nat
        } else {
            0nat
        },
    decreases entries.len(),
{
    if entries.len() > 0 {
        let front = entries.drop_last();
        assert(distinct_paths(front)) by {
            assert forall|a: int, b: int| 0 <= a < b < front.len() implies (#[trigger] front[a]).0@
                != (#[trigger] front[b]).0@ by {
                assert(entries[a].0@ != entries[b].0@);
            }
        }
        lemma_count_of(front, path);
        if entries.last().0@ == path {
            lemma_senders_dom(front, path);
            if senders_of(front).contains_key(path) {
                let k = choose|k: int| 0 <= k < front.len() && (#[trigger] front[k]).0@ == path;
                assert(entries[k].0@ == entries[entries.len() - 1].0@);
            }
        }
    }
}

/// The senders of a state that holds none.
pub open spec fn no_senders() -> Map<Seq<char>, Sender<bool>> {
    Map::empty()
}

/// The state that the handlers share: for each path that is being read,
/// the sender of the signal that stops its processor, and the
/// configuration that every new processor gets.
pub struct AppState {
    flags: Vec<(String, Sender<bool>)>,
    config: Config,
}

impl View for AppState {
    type V = Map<Seq<char>, Sender<bool>>;

    /// The senders that the state holds, by their paths.
    closed spec fn view(&self) -> Map<Seq<char>, Sender<bool>> {
        senders_of(self.flags@)
    }
}

impl AppState {
    #[verifier::type_invariant]
    spec fn distinct(&self) -> bool {
        distinct_paths(self.flags@)
    }

    /// The configuration that the state was made with.
    pub closed spec fn spec_config(&self) -> Config {
        self.config
    }

    /// The number of senders that the state holds for `path`.
    pub closed spec fn held(&self, path: Seq<char>) -> nat {
        count_of(self.flags@, path)
    }

    /// Whether the state holds one sender for each path that it has, and
    /// none for any other path.
    pub open spec fn one_each(&self) -> bool {
        forall|path: Seq<char>| #[trigger]
            self.held(path) == if self@.contains_key(path) {
                1nat
            } else {
                0nat
            }
    }

    /// A state whose paths are distinct holds one sender for each.
    proof fn lemma_one_each(&self)
        requires
            distinct_paths(self.flags@),
        ensures
            self.one_each(),
    {
        assert forall|path: Seq<char>| #[trigger]
            self.held(path) == if self@.contains_key(path) {
                1nat
            } else {
                0nat
            } by {
            lemma_count_of(self.flags@, path);
        }
    }

    /// A state that holds no sender.
    pub fn new(config: Config) -> (res: Self)
        ensures
            res@ == no_senders(),
            res.spec_config() == config,
            res.one_each(),
    {
        AppState { flags: Vec::new(), config }
    }

    /// The configuration that every new processor gets.
    pub fn config(&self) -> (res: &Config)
        ensures
            *res == self.spec_config(),
    {
        &self.config
    }

    /// The place of the entry of `path`, if the state holds one.
    fn position(&self, path: &String) -> (res: Option<usize>)
        ensures
            match res {
                Some(i) => i < self.flags@.len() && self.flags@[i as int].0@ == path@,
                None => !self@.contains_key(path@),
            },
    {
        let mut i: usize = 0;
        while i < self.flags.len()
            invariant
                i <= self.flags@.len(),
                forall|k: int| 0 <= k < i ==> (#[trigger] self.flags@[k]).0@ != path@,
            decreases self.flags@.len() - i,
        {
            if self.flags[i].0 == *path {
                return Some(i);
            }
            i = i + 1;
        }
        proof {
            lemma_senders_dom(self.flags@, path@);
        }
        None
    }

    /// Holds `flag` for `fpath` from now on, and hands back the sender that
    /// was held for it before, if there was one.
    pub fn add_task_flag(&mut self, fpath: String, flag: Sender<bool>) -> (res: Option<
        Sender<bool>,
    >)
        ensures
            final(self)@ == old(self)@.insert(fpath@, flag),
            res == if old(self)@.contains_key(fpath@) {
                Some(old(self)@[fpath@])
            } else {
                None
            },
            final(self).spec_config() == old(self).spec_config(),
            final(self).one_each(),
    {
        proof {
            use_type_invariant(&*self);
        }
        let found = self.position(&fpath);
        let mut flags: Vec<(String, Sender<bool>)> = Vec::new();
        core::mem::swap(&mut self.flags, &mut flags);
        let previous = match found {
            Some(i) => {
                proof {
                    lemma_senders_at(flags@, i as int);
                    lemma_senders_remove(flags@, i as int);
                }
                let entry = flags.remove(i);
                Some(entry.1)
            },
            None => None,
        };
        proof {
            lemma_senders_dom(flags@, fpath@);
            assert(flags@.push((fpath, flag)).drop_last() == flags@);
            assert(distinct_paths(flags@.push((fpath, flag)))) by {
                let after = flags@.push((fpath, flag));
                assert forall|a: int, b: int| 0 <= a < b < after.len() implies (
                #[trigger] after[a]).0@ != (#[trigger] after[b]).0@ by {
                    if b == after.len() - 1 {
                        assert(flags@[a].0@ != fpath@);
                    } else {
                        assert(flags@[a].0@ != flags@[b].0@);
                    }
                }
            }
        }
        flags.push((fpath, flag));
        self.flags = flags;
        assert(self@ =~= old(self)@.insert(fpath@, flag));
        proof {
            self.lemma_one_each();
        }
        previous
    }

    /// Gives up the sender that is held for `fpath`, if there is one, and
    /// hands it back.
    pub fn take_task_flag(&mut self, fpath: &str) -> (res: Option<Sender<bool>>)
        ensures
            final(self)@ == old(self)@.remove(fpath@),
            res == if old(self)@.contains_key(fpath@) {
                Some(old(self)@[fpath@])
            } else {
                None
            },
            final(self).spec_config() == old(self).spec_config(),
            final(self).one_each(),
    {
        proof {
            use_type_invariant(&*self);
        }
        let key = fpath.to_owned();
        match self.position(&key) {
            Some(i) => {
                let mut flags: Vec<(String, Sender<bool>)> = Vec::new();
                core::mem::swap(&mut self.flags, &mut flags);
                proof {
                    lemma_senders_at(flags@, i as int);
                    lemma_senders_remove(flags@, i as int);
                }
                let entry = flags.remove(i);
                self.flags = flags;
                proof {
                    self.lemma_one_each();
                }
                Some(entry.1)
            },
            None => {
                assert(self@ =~= old(self)@.remove(fpath@));
                proof {
                    self.lemma_one_each();
                }
                None
            },
        }
    }

    /// The number of senders that the state holds for `fpath`: one where it
    /// holds the path, none where it does not, and never more.
    pub fn count_task_flags(&self, fpath: &str) -> (res: usize)
        ensures
            res == self.held(fpath@),
            res == if self@.contains_key(fpath@) {
                1nat
            } else {
                0nat
            },
    {
        proof {
            use_type_invariant(self);
            lemma_count_of(self.flags@, fpath@);
        }
        let key = fpath.to_owned();
        let mut count: usize = 0;
        let mut i: usize = 0;
        while i < self.flags.len()
            invariant
                i <= self.flags@.len(),
                count == count_of(self.flags@.take(i as int), key@),
                count <= i,
            decreases self.flags@.len() - i,
        {
            proof {
                assert(self.flags@.take(i + 1).drop_last() == self.flags@.take(i as int));
            }
            if self.flags[i].0 == key {
                count = count + 1;
            }
            i = i + 1;
        }
        assert(self.flags@.take(i as int) == self.flags@);
        count
    }
}

/// The requests that the plugin answers. Each is a `POST` to its path.
#[derive(Debug, Clone, Copy, PartialEq, Eq, Structural)]
pub enum Route {
    /// The handshake of the engine with the plugin.
    Activate,
    /// The request to start reading a log.
    StartLogging,
    /// The request to stop reading a log.
    StopLogging,
}

impl Route {
    /// The path of the request.
    pub open spec fn spec_path(self) -> Seq<char> {
        match self {
            Route::Activate => "/Plugin.Activate"@,
            Route::StartLogging => "/LogDriver.StartLogging"@,
            Route::StopLogging => "/LogDriver.StopLogging"@,
        }
    }

    /// The path of the request.
    pub fn path(self) -> (res: &'static str)
        ensures
            res@ == self.spec_path(),
    {
        match self {
            Route::Activate => "/Plugin.Activate",
            Route::StartLogging => "/LogDriver.StartLogging",
            Route::StopLogging => "/LogDriver.StopLogging",
        }
    }
}

/// The plugin's interface to the engine: the state that its handlers
/// share. Serving the requests is done outside this library.
pub struct Api {
    state: AppState,
}

impl Api {
    /// The state that the handlers share.
    pub closed spec fn spec_state(&self) -> AppState {
        self.state
    }

    /// An interface that reads no log yet.
    pub fn new(config: Config) -> (res: Self)
        ensures
            res.spec_state()@ == no_senders(),
            res.spec_state().spec_config() == config,
            res.spec_state().one_each(),
    {
        Api { state: AppState::new(config) }
    }

    /// An interface on a state that is there already.
    pub fn from_existing_state(state: AppState) -> (res: Self)
        ensures
            res.spec_state() == state,
    {
        Api { state }
    }

    /// Gives the state to the server that calls the handlers with it.
    pub fn into_state(self) -> (res: AppState)
        ensures
            res == self.spec_state(),
    {
        self.state
    }
}

} // verus!
